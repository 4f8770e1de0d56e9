//! The date windows that `sync` and `list` query, and the request filters
//! built from them.
use vstd::prelude::*;
use crate::dates::{
    add_days, date_before, format_rfc3339_seconds, instant_before, is_date_before,
    is_instant_before, midnight, rfc3339_seconds_text, shifted, spec_midnight, spec_rfc3339_seconds,
    sub_days, valid_date, valid_instant, CalendarDate, UtcInstant,
};

verus! {

/// The settings of one sync run that its planning reads.
#[derive(Debug, Clone, Copy)]
pub struct SyncOptions {
    pub overlap_days: u64,
    pub from: Option<CalendarDate>,
    pub to: Option<CalendarDate>,
    pub dry_run: bool,
    pub quiet: bool,
    pub full: bool,
    pub force: bool,
}

/// Why a sync window cannot be formed.
#[derive(Debug, Clone, Copy, PartialEq, Eq, Structural)]
pub enum SyncError {
    /// `--to` is the last date chrono can represent.
    ToDateTooLarge,
    /// No `--from`, and no Call File to derive the High-Water Mark from.
    NoCallFiles,
    /// The Overlap Window reaches before the first representable date.
    OverlapUnderflow,
    /// The window starts at or after its end.
    EmptyWindow,
}

/// The window of one sync: instants to query, and the dates of the Call
/// Files to scan.
#[derive(Debug, Clone, Copy, PartialEq, Eq)]
pub struct SyncWindow {
    pub from: UtcInstant,
    pub to: UtcInstant,
    pub from_date: CalendarDate,
    pub to_date: CalendarDate,
}

/// The end of a sync window: the midnight after `--to`, or now.
pub open spec fn spec_window_end(to: Option<CalendarDate>, now: UtcInstant) -> Result<
    (CalendarDate, UtcInstant),
    SyncError,
> {
    match to {
        None => Ok((now.date, now)),
        Some(d) => match shifted(d, 1) {
            None => Err(SyncError::ToDateTooLarge),
            Some(next) => Ok((d, spec_midnight(next))),
        },
    }
}

/// The sync window: from midnight of `--from`, or of the High-Water Mark
/// less the Overlap Window, to the end above; it must not be empty.
pub open spec fn spec_sync_window(
    options: SyncOptions,
    now: UtcInstant,
    high_water: Option<CalendarDate>,
) -> Result<SyncWindow, SyncError> {
    match spec_window_end(options.to, now) {
        Err(e) => Err(e),
        Ok((to_date, to)) => {
            let from_date = match options.from {
                Some(f) => Ok(f),
                None => match high_water {
                    None => Err(SyncError::NoCallFiles),
                    Some(h) => match shifted(h, -(options.overlap_days as int)) {
                        None => Err(SyncError::OverlapUnderflow),
                        Some(d) => Ok(d),
                    },
                },
            };
            match from_date {
                Err(e) => Err(e),
                Ok(fd) => if !instant_before(spec_midnight(fd), to) {
                    Err(SyncError::EmptyWindow)
                } else {
                    Ok(SyncWindow { from: spec_midnight(fd), to, from_date: fd, to_date })
                },
            }
        },
    }
}

/// An explicit `--from` decides where a sync window starts: the High-Water
/// Mark then plays no part, and a window that forms starts at midnight UTC
/// of that date.  Without `--from` and without Call Files no window forms.
/// Without `--from`, a window starts at midnight of the High-Water Mark less
/// the Overlap Window.  Every window that forms is non-empty; it ends at the
/// midnight after `--to`, or now without it.
pub proof fn lemma_explicit_from_decides_the_start(
    options: SyncOptions,
    now: UtcInstant,
    h1: Option<CalendarDate>,
    h2: Option<CalendarDate>,
)
    ensures
        options.from is Some ==> spec_sync_window(options, now, h1) == spec_sync_window(
            options,
            now,
            h2,
        ),
        options.from matches Some(f) ==> (spec_sync_window(options, now, h1) matches Ok(w) ==> w.from_date
            == f && w.from == (UtcInstant { date: f, seconds_of_day: 0, nanosecond: 0 })),
        options.from is None && h1 is None && spec_window_end(options.to, now) is Ok ==> spec_sync_window(
            options,
            now,
            h1,
        ) == Err::<SyncWindow, SyncError>(SyncError::NoCallFiles),
        spec_sync_window(options, now, h1) matches Ok(w) ==> instant_before(w.from, w.to),
        options.to is None ==> (spec_sync_window(options, now, h1) matches Ok(w) ==> w.to == now
            && w.to_date == now.date),
        options.to matches Some(d) ==> (spec_sync_window(options, now, h1) matches Ok(w)
            ==> (w.to_date == d && (shifted(d, 1) matches Some(next) && w.to == (UtcInstant {
            date: next,
            seconds_of_day: 0,
            nanosecond: 0,
        })))),
        options.from is None ==> (h1 matches Some(h) ==> (spec_sync_window(options, now, h1) matches Ok(
            w,
        ) ==> (shifted(h, -(options.overlap_days as int)) == Some(w.from_date) && w.from == (
        UtcInstant { date: w.from_date, seconds_of_day: 0, nanosecond: 0 })))),
{
}

/// The end of a sync window.  The caller scans for the High-Water Mark only
/// after this succeeds.
pub fn window_end(to: Option<CalendarDate>, now: UtcInstant) -> (r: Result<
    (CalendarDate, UtcInstant),
    SyncError,
>)
    requires
        valid_instant(now),
        to matches Some(d) ==> valid_date(d),
    ensures
        r == spec_window_end(to, now),
        r matches Ok((d, t)) ==> valid_date(d) && valid_instant(t),
{
    match to {
        None => Ok((now.date, now)),
        Some(d) => match add_days(d, 1) {
            None => Err(SyncError::ToDateTooLarge),
            Some(next) => Ok((d, midnight(next))),
        },
    }
}

/// The sync window.
pub fn sync_window(options: &SyncOptions, now: UtcInstant, high_water: Option<CalendarDate>) -> (r:
    Result<SyncWindow, SyncError>)
    requires
        valid_instant(now),
        options.to matches Some(d) ==> valid_date(d),
        options.from matches Some(d) ==> valid_date(d),
        high_water matches Some(d) ==> valid_date(d),
    ensures
        r == spec_sync_window(*options, now, high_water),
        r matches Ok(w) ==> valid_instant(w.from) && valid_instant(w.to),
{
    let (to_date, to) = window_end(options.to, now)?;
    let from_date = match options.from {
        Some(f) => f,
        None => match high_water {
            None => return Err(SyncError::NoCallFiles),
            Some(h) => match sub_days(h, options.overlap_days) {
                None => return Err(SyncError::OverlapUnderflow),
                Some(d) => d,
            },
        },
    };
    let from = midnight(from_date);
    if !is_instant_before(from, to) {
        return Err(SyncError::EmptyWindow);
    }
    Ok(SyncWindow { from, to, from_date, to_date })
}

impl SyncError {
    /// The message shown for the error.
    pub fn message(&self) -> (r: &'static str)
        ensures
            match self {
                SyncError::ToDateTooLarge => r@ == "--to date is too large"@,
                SyncError::NoCallFiles => r@
                    == "Output Directory has no Call Files; pass --from YYYY-MM-DD or run sync --full"@,
                SyncError::OverlapUnderflow => r@
                    == "Overlap Window underflowed the supported date range"@,
                SyncError::EmptyWindow => r@
                    == "sync window is empty; --from must be earlier than the end of --to"@,
            },
    {
        match self {
            SyncError::ToDateTooLarge => "--to date is too large",
            SyncError::NoCallFiles => "Output Directory has no Call Files; pass --from YYYY-MM-DD or run sync --full",
            SyncError::OverlapUnderflow => "Overlap Window underflowed the supported date range",
            SyncError::EmptyWindow => "sync window is empty; --from must be earlier than the end of --to",
        }
    }
}

/// Why a `list` date range is refused.
#[derive(Debug, Clone, Copy, PartialEq, Eq, Structural)]
pub enum ListError {
    /// `--to` is earlier than `--from`.
    InvertedRange,
    /// `--to` is the last date chrono can represent.
    ToDateTooLarge,
}

/// The instants `list` queries: from midnight of `--from` to the midnight
/// after `--to` (today by default); an inverted range is refused before any
/// request.
pub open spec fn spec_list_window(from: CalendarDate, to: Option<CalendarDate>, now: UtcInstant) -> Result<
    (UtcInstant, UtcInstant),
    ListError,
> {
    let to_date = match to {
        Some(d) => d,
        None => now.date,
    };
    if date_before(to_date, from) {
        Err(ListError::InvertedRange)
    } else {
        match shifted(to_date, 1) {
            None => Err(ListError::ToDateTooLarge),
            Some(next) => Ok((spec_midnight(from), spec_midnight(next))),
        }
    }
}

/// The instants `list` queries.
pub fn list_window(from: CalendarDate, to: Option<CalendarDate>, now: UtcInstant) -> (r: Result<
    (UtcInstant, UtcInstant),
    ListError,
>)
    requires
        valid_instant(now),
        valid_date(from),
        to matches Some(d) ==> valid_date(d),
    ensures
        r == spec_list_window(from, to, now),
        r matches Ok((a, b)) ==> valid_instant(a) && valid_instant(b),
{
    let to_date = match to {
        Some(d) => d,
        None => now.date,
    };
    if is_date_before(to_date, from) {
        return Err(ListError::InvertedRange);
    }
    match add_days(to_date, 1) {
        None => Err(ListError::ToDateTooLarge),
        Some(next) => Ok((midnight(from), midnight(next))),
    }
}

impl ListError {
    /// The message shown for the error.
    pub fn message(&self) -> (r: &'static str)
        ensures
            match self {
                ListError::InvertedRange => r@ == "--to must be the same as or later than --from"@,
                ListError::ToDateTooLarge => r@ == "--to date is too large"@,
            },
    {
        match self {
            ListError::InvertedRange => "--to must be the same as or later than --from",
            ListError::ToDateTooLarge => "--to date is too large",
        }
    }
}

/// The `filter` of an extensive-call request.
#[derive(Debug, Clone, PartialEq, Eq)]
pub struct CallsFilter {
    pub from_date_time: Option<String>,
    pub to_date_time: Option<String>,
    pub call_ids: Option<Vec<String>>,
}

impl CallsFilter {
    /// Every Call in the organization.
    pub fn all() -> (r: CallsFilter)
        ensures
            r.from_date_time is None,
            r.to_date_time is None,
            r.call_ids is None,
    {
        CallsFilter { from_date_time: None, to_date_time: None, call_ids: None }
    }

    /// Calls that started in `[from, to)`, as RFC 3339 UTC with seconds.
    pub fn dates(from: UtcInstant, to: UtcInstant) -> (r: CallsFilter)
        requires
            valid_instant(from),
            valid_instant(to),
        ensures
            r.from_date_time matches Some(f) && f@ == spec_rfc3339_seconds(from),
            r.to_date_time matches Some(t) && t@ == spec_rfc3339_seconds(to),
            0 <= from.date.year <= 9999 ==> (r.from_date_time matches Some(f) && f@
                == rfc3339_seconds_text(from)),
            0 <= to.date.year <= 9999 ==> (r.to_date_time matches Some(t) && t@
                == rfc3339_seconds_text(to)),
            r.call_ids is None,
    {
        CallsFilter {
            from_date_time: Some(format_rfc3339_seconds(from)),
            to_date_time: Some(format_rfc3339_seconds(to)),
            call_ids: None,
        }
    }

    /// The one Call with this id.
    pub fn call_id(call_id: &str) -> (r: CallsFilter)
        ensures
            r.from_date_time is None,
            r.to_date_time is None,
            r.call_ids matches Some(ids) && ids@.len() == 1 && ids@[0]@ == call_id@,
    {
        let mut ids: Vec<String> = Vec::new();
        ids.push(call_id.to_owned());
        CallsFilter { from_date_time: None, to_date_time: None, call_ids: Some(ids) }
    }
}

} // verus!

use gong_cli::dates::{CalendarDate, UtcInstant};
use gong_cli::status::{read_status_value, StatusTracker, SyncReport};
use gong_cli::window::{list_window, sync_window, CallsFilter, ListError, SyncError, SyncOptions};

fn date(year: i32, month: u32, day: u32) -> CalendarDate {
    CalendarDate { year, month, day }
}

fn noon(d: CalendarDate) -> UtcInstant {
    UtcInstant { date: d, seconds_of_day: 12 * 3600, nanosecond: 0 }
}

/// An instant as the RFC 3339 text a date filter carries.
fn rfc3339(t: UtcInstant) -> String {
    CallsFilter::dates(t, t).from_date_time.unwrap()
}

fn options(from: Option<CalendarDate>, to: Option<CalendarDate>) -> SyncOptions {
    SyncOptions { overlap_days: 3, from, to, dry_run: false, quiet: false, full: false, force: false }
}

#[test]
fn status_file_is_running_during_work_then_records_success_exactly() {
    let (tracker, running) = StatusTracker::start(None, "2026-07-02T08:00:00Z".to_owned());
    assert_eq!(
        running,
        "last_state=running\nlast_run_at=2026-07-02T08:00:00Z\nlast_success_at=\nlast_failure_at=\nlast_message=sync running\nnew=0\nhealed=0\nskipped=0\nfailed=0\n"
    );
    let report = SyncReport::empty();
    let done = tracker.finish(report, &report.summary(), "2026-07-02T08:00:05Z");
    assert_eq!(
        done,
        "last_state=success\nlast_run_at=2026-07-02T08:00:00Z\nlast_success_at=2026-07-02T08:00:05Z\nlast_failure_at=\nlast_message=synced 0 new, healed 0, skipped 0, failed 0\nnew=0\nhealed=0\nskipped=0\nfailed=0\n"
    );
}

#[test]
fn one_transcript_failure_is_partial_and_keeps_the_last_success() {
    let prior = "last_state=success\nlast_success_at=2026-07-01T12:00:00Z\n";
    let (tracker, _) = StatusTracker::start(Some(prior), "2026-07-02T08:00:00Z".to_owned());
    let report = SyncReport { new: 1, healed: 0, skipped: 0, failed: 1 };
    let text = tracker.finish(report, &report.summary(), "2026-07-02T08:01:00Z");
    assert_eq!(read_status_value(&text, "last_state"), "partial");
    assert_eq!(read_status_value(&text, "last_success_at"), "2026-07-01T12:00:00Z");
    assert_eq!(read_status_value(&text, "last_failure_at"), "2026-07-02T08:01:00Z");
    assert_eq!(read_status_value(&text, "last_message"), "synced 1 new, healed 0, skipped 0, failed 1");
    assert_eq!(read_status_value(&text, "failed"), "1");
}

#[test]
fn a_failed_run_records_failure_on_one_line() {
    let prior = "last_success_at=2026-07-01T12:00:00Z\r\nlast_failure_at=old\n";
    let (tracker, _) = StatusTracker::start(Some(prior), "2026-07-02T08:00:00Z".to_owned());
    assert_eq!(tracker.previous_success_at, "2026-07-01T12:00:00Z");
    assert_eq!(tracker.previous_failure_at, "old");
    let text = tracker.finish_failure(SyncReport::empty(), "bad\nthing\rhappened", "2026-07-02T08:00:01Z");
    assert!(text.contains("last_state=failure\n"));
    assert!(text.contains("last_message=bad thing happened\n"));
    assert_eq!(read_status_value(&text, "last_success_at"), "2026-07-01T12:00:00Z");
    assert_eq!(read_status_value(&text, "last_failure_at"), "2026-07-02T08:00:01Z");
    assert_eq!(read_status_value(&text, "absent"), "");
}

#[test]
fn sync_derives_high_water_mark_and_overlap_from_call_filenames_only() {
    let window = sync_window(&options(None, Some(date(2026, 5, 20))), noon(date(2026, 6, 1)), Some(date(2026, 5, 19))).unwrap();
    assert_eq!(window.from_date, date(2026, 5, 16));
    assert_eq!(window.to_date, date(2026, 5, 20));
    let filter = CallsFilter::dates(window.from, window.to);
    assert_eq!(filter.from_date_time.as_deref(), Some("2026-05-16T00:00:00Z"));
    assert_eq!(filter.to_date_time.as_deref(), Some("2026-05-21T00:00:00Z"));
    assert!(filter.call_ids.is_none());
}

#[test]
fn empty_output_directory_without_from_fails_before_network_with_a_hint() {
    let error = sync_window(&options(None, None), noon(date(2026, 6, 1)), None).unwrap_err();
    assert_eq!(error, SyncError::NoCallFiles);
    assert!(error.message().contains("pass --from YYYY-MM-DD"));
    assert!(error.message().contains("sync --full"));
}

#[test]
fn an_explicit_from_runs_to_now() {
    let now = UtcInstant { date: date(2026, 5, 20), seconds_of_day: 3600, nanosecond: 7 };
    let window = sync_window(&options(Some(date(2026, 5, 19)), None), now, None).unwrap();
    assert_eq!(window.to, now);
    assert_eq!(rfc3339(window.from), "2026-05-19T00:00:00Z");
    let empty = sync_window(&options(Some(date(2026, 5, 21)), Some(date(2026, 5, 20))), now, None);
    assert_eq!(empty.unwrap_err(), SyncError::EmptyWindow);
    let too_far = sync_window(&options(None, Some(date(262142, 12, 31))), now, Some(date(2026, 5, 1)));
    assert_eq!(too_far.unwrap_err(), SyncError::ToDateTooLarge);
}

#[test]
fn list_rejects_an_inverted_date_range_before_calling_gong() {
    let error = list_window(date(2026, 5, 20), Some(date(2026, 5, 19)), noon(date(2026, 6, 1))).unwrap_err();
    assert_eq!(error, ListError::InvertedRange);
    assert_eq!(error.message(), "--to must be the same as or later than --from");
}

#[test]
fn list_covers_whole_days_through_the_to_date() {
    let (from, to) = list_window(date(2026, 5, 19), Some(date(2026, 5, 19)), noon(date(2026, 6, 1))).unwrap();
    assert_eq!(rfc3339(from), "2026-05-19T00:00:00Z");
    assert_eq!(rfc3339(to), "2026-05-20T00:00:00Z");
    let (_, today) = list_window(date(2026, 5, 19), None, noon(date(2026, 6, 1))).unwrap();
    assert_eq!(rfc3339(today), "2026-06-02T00:00:00Z");
}

#[test]
fn filters_for_all_calls_and_for_one_call() {
    assert_eq!(CallsFilter::all(), CallsFilter { from_date_time: None, to_date_time: None, call_ids: None });
    assert_eq!(CallsFilter::call_id("123").call_ids, Some(vec!["123".to_owned()]));
}

#[test]
fn window_dates_cross_month_year_and_leap_day_boundaries() {
    let window = sync_window(&options(None, Some(date(2024, 12, 31))), noon(date(2025, 1, 5)), Some(date(2024, 3, 2))).unwrap();
    assert_eq!(window.from_date, date(2024, 2, 28));
    assert_eq!(rfc3339(window.to), "2025-01-01T00:00:00Z");
    let (_, to) = list_window(date(2024, 2, 1), Some(date(2024, 2, 28)), noon(date(2024, 6, 1))).unwrap();
    assert_eq!(rfc3339(to), "2024-02-29T00:00:00Z");
    let underflow = sync_window(&options(None, None), noon(date(2026, 6, 1)), Some(date(-262143, 1, 2)));
    assert_eq!(underflow.unwrap_err(), SyncError::OverlapUnderflow);
}

#[test]
fn a_leap_second_at_the_end_of_a_minute_is_written_as_second_sixty() {
    let leap = UtcInstant { date: date(2016, 12, 31), seconds_of_day: 86_399, nanosecond: 1_000_000_000 };
    assert_eq!(rfc3339(leap), "2016-12-31T23:59:60Z");
    assert_eq!(rfc3339(noon(date(2026, 7, 1))), "2026-07-01T12:00:00Z");
}

#[test]
fn different_reports_give_different_summary_lines() {
    let a = SyncReport { new: 1, healed: 12, skipped: 3, failed: 0 };
    let b = SyncReport { new: 11, healed: 2, skipped: 3, failed: 0 };
    assert_eq!(a.summary(), "synced 1 new, healed 12, skipped 3, failed 0");
    assert_eq!(b.summary(), "synced 11 new, healed 2, skipped 3, failed 0");
    assert_ne!(a.summary(), b.summary());
    assert!(!a.summary().contains('\n'));
}

use gong_cli::api::{CallContent, CallMetadata, ExtensiveCall, Highlight, HighlightItem, Party, TextItem};
use gong_cli::callfile::{date_from_filename, frontmatter_call_id, newest_date, scan_call_file, scanned_date};
use gong_cli::commands::preflight_line;
use gong_cli::dates::{CalendarDate, StartedAt};
use gong_cli::renderer::{canonical_filename, render_call, MergedCall, RenderError, PLACEHOLDER};
use gong_cli::api::CallTranscript;
use gong_cli::status::SyncReport;
use gong_cli::sync::{
    action_name, exit_code, filename_collision_key, plan_filenames, prepare_plan, record_action,
    record_outcome, reserve_filename, transcript_batches, Action, ExistingFile, Target,
};

fn customer() -> Party {
    Party {
        id: None,
        name: Some("Carl".to_owned()),
        email_address: None,
        title: None,
        affiliation: "External".to_owned(),
        speaker_id: None,
        user_id: None,
    }
}

fn internal() -> Party {
    Party { affiliation: "Internal".to_owned(), name: Some("Ivan".to_owned()), ..customer() }
}

fn call(id: &str, title: &str, started: &str, brief: Option<&str>) -> ExtensiveCall {
    ExtensiveCall {
        metadata: CallMetadata {
            id: id.to_owned(),
            title: title.to_owned(),
            started: started.to_owned(),
            duration: 600,
            primary_user_id: None,
            system: None,
            url: None,
        },
        parties: vec![internal(), customer()],
        context: vec![],
        content: brief.map(|b| CallContent {
            brief: Some(b.to_owned()),
            key_points: Some(vec![TextItem { text: "A key point".to_owned() }]),
            highlights: Some(vec![Highlight {
                title: "Next steps".to_owned(),
                items: vec![HighlightItem { text: "Follow up".to_owned() }],
            }]),
            outline: None,
        }),
    }
}

/// The names of the files in a directory that holds these Call Files.
fn dir(files: &[ExistingFile]) -> Vec<String> {
    files.iter().map(|f| f.filename.clone()).collect()
}

fn date(year: i32, month: u32, day: u32) -> CalendarDate {
    CalendarDate { year, month, day }
}

/// What a scan of a freshly written Call File records.
fn written(c: &ExtensiveCall) -> ExistingFile {
    let rendered = render_call(&MergedCall {
        call: c.clone(),
        transcript: CallTranscript { call_id: c.metadata.id.clone(), transcript: vec![] },
    })
    .unwrap();
    scan_call_file(rendered.filename, &rendered.markdown)
}

#[test]
fn sync_seeds_then_skips_without_changing_file_bytes() {
    let c = call("1860496513693944597", "Fixture_Reference", "2026-05-19T16:00:00Z", Some("Done."));
    let first = prepare_plan(vec![c.clone()], &vec![], &vec![], false, false).unwrap();
    assert_eq!(first.operations.len(), 1);
    assert_eq!(first.operations[0].action, Action::New);
    assert_eq!(first.operations[0].target, Target::New("2026-05-19 - Fixture_Reference.md".to_owned()));
    assert_eq!(first.preview().summary(), "synced 1 new, healed 0, skipped 0, failed 0");

    let files = vec![written(&c)];
    assert_eq!(files[0].call_id.as_deref(), Some("1860496513693944597"));
    assert!(!files[0].incomplete);
    let second = prepare_plan(vec![c], &files, &dir(&files), false, false).unwrap();
    assert_eq!(second.operations[0].action, Action::Skip);
    assert_eq!(second.operations[0].target, Target::Existing(0));
    assert_eq!(second.preview().summary(), "synced 0 new, healed 0, skipped 1, failed 0");
    assert!(second.transcript_call_ids().is_empty());
}

#[test]
fn sync_heals_a_placeholder_then_skips_the_complete_file() {
    let early = call("42", "Weekly", "2026-05-19T16:00:00Z", None);
    let files = vec![written(&early)];
    assert!(files[0].incomplete);
    let late = call("42", "Weekly", "2026-05-19T16:00:00Z", Some("Summary arrived."));
    let plan = prepare_plan(vec![late.clone()], &files, &dir(&files), false, false).unwrap();
    assert_eq!(plan.operations[0].action, Action::Heal);
    assert_eq!(plan.transcript_call_ids(), vec!["42".to_owned()]);
    let healed = vec![written(&late)];
    assert!(!healed[0].incomplete);
    let again = prepare_plan(vec![late], &healed, &dir(&healed), false, false).unwrap();
    assert_eq!(again.operations[0].action, Action::Skip);
}

/// The scan after a run that wrote every planned file: written-over files
/// keep their names, new files follow the scanned ones.
fn after_run(plan: &gong_cli::sync::SyncPlan, files: &[ExistingFile]) -> Vec<ExistingFile> {
    let mut out = files.to_vec();
    for op in &plan.operations {
        match (&op.target, op.action) {
            (_, Action::Skip) => {}
            (Target::Existing(j), _) => {
                let scanned = written(&op.call);
                out[*j] = ExistingFile { filename: files[*j].filename.clone(), ..scanned };
            }
            (Target::New(name), _) => {
                let scanned = written(&op.call);
                out.push(ExistingFile { filename: name.clone(), ..scanned });
            }
        }
    }
    out
}

#[test]
fn a_second_run_over_the_same_calls_writes_nothing_new() {
    let legacy = ExistingFile { filename: "2026-05-18 - Legacy.md".to_owned(), call_id: None, incomplete: false };
    let pending = ExistingFile { filename: "2026-05-18 - Pending.md".to_owned(), call_id: Some("2".to_owned()), incomplete: true };
    let done = ExistingFile { filename: "2026-05-18 - Done.md".to_owned(), call_id: Some("3".to_owned()), incomplete: false };
    let files = vec![legacy, pending, done];
    let calls = vec![
        call("1", "Legacy", "2026-05-18T09:00:00Z", Some("x")),
        call("2", "Pending", "2026-05-18T10:00:00Z", Some("arrived")),
        call("3", "Done", "2026-05-18T11:00:00Z", Some("x")),
        call("4", "Weekly", "2026-05-19T09:00:00Z", None),
        call("5", "Weekly", "2026-05-19T10:00:00Z", Some("x")),
    ];
    for force in [false, true] {
        let first = prepare_plan(calls.clone(), &files, &dir(&files), force, false).unwrap();
        let rescanned = after_run(&first, &files);
        let second = prepare_plan(calls.clone(), &rescanned, &dir(&rescanned), false, false).unwrap();
        assert_eq!(second.operations.len(), first.operations.len());
        assert_eq!(rescanned.len(), files.len() + 2);
        for (a, b) in first.operations.iter().zip(second.operations.iter()) {
            assert_eq!(a.call.metadata.id, b.call.metadata.id);
            assert!(matches!(b.target, Target::Existing(_)));
            let expected = if b.call.metadata.id == "4" { Action::Heal } else { Action::Skip };
            assert_eq!(b.action, expected, "call {}", b.call.metadata.id);
        }
        let mut shuffled = rescanned.clone();
        shuffled.reverse();
        let third = prepare_plan(calls.clone(), &shuffled, &dir(&shuffled), false, false).unwrap();
        for (b, c) in second.operations.iter().zip(third.operations.iter()) {
            assert_eq!(b.action, c.action);
            match (&b.target, &c.target) {
                (Target::Existing(i), Target::Existing(j)) => {
                    assert_eq!(rescanned[*i].filename, shuffled[*j].filename);
                }
                _ => panic!("a second run wrote a new file"),
            }
        }
    }
}

#[test]
fn the_scan_order_does_not_change_what_happens_to_each_call() {
    let files = vec![
        ExistingFile { filename: "2026-05-18 - Legacy.md".to_owned(), call_id: None, incomplete: false },
        ExistingFile { filename: "2026-05-18 - Pending.md".to_owned(), call_id: Some("2".to_owned()), incomplete: true },
        ExistingFile { filename: "2026-05-18 - Done.md".to_owned(), call_id: Some("3".to_owned()), incomplete: false },
    ];
    let mut reversed = files.clone();
    reversed.reverse();
    let calls = vec![
        call("1", "Legacy", "2026-05-18T09:00:00Z", Some("x")),
        call("2", "Pending", "2026-05-18T10:00:00Z", Some("x")),
        call("3", "Done", "2026-05-18T11:00:00Z", Some("x")),
        call("4", "New", "2026-05-19T09:00:00Z", Some("x")),
    ];
    let forward = prepare_plan(calls.clone(), &files, &dir(&files), false, true).unwrap();
    let backward = prepare_plan(calls, &reversed, &dir(&reversed), false, true).unwrap();
    let actions: Vec<Action> = forward.operations.iter().map(|o| o.action).collect();
    assert_eq!(actions, vec![Action::Skip, Action::Heal, Action::Skip, Action::New]);
    assert!(forward.orphans.is_empty() && backward.orphans.is_empty());
    for (x, y) in forward.operations.iter().zip(backward.operations.iter()) {
        assert_eq!(x.action, y.action);
        match (&x.target, &y.target) {
            (Target::Existing(i), Target::Existing(j)) => assert_eq!(files[*i].filename, reversed[*j].filename),
            (Target::New(m), Target::New(n)) => assert_eq!(m, n),
            _ => panic!("targets differ"),
        }
    }
}

#[test]
fn orphans_are_reported_by_name_whatever_the_scan_order() {
    let files = vec![
        ExistingFile { filename: "2026-05-18 - Legacy.md".to_owned(), call_id: None, incomplete: false },
        ExistingFile { filename: "2026-05-18 - Pending.md".to_owned(), call_id: Some("2".to_owned()), incomplete: true },
        ExistingFile { filename: "2026-05-18 - Done.md".to_owned(), call_id: Some("3".to_owned()), incomplete: false },
    ];
    let mut reversed = files.clone();
    reversed.reverse();
    let calls = vec![call("2", "Pending", "2026-05-18T10:00:00Z", Some("x"))];
    let forward = prepare_plan(calls.clone(), &files, &dir(&files), false, true).unwrap();
    let backward = prepare_plan(calls, &reversed, &dir(&reversed), false, true).unwrap();
    let names = |plan: &gong_cli::sync::SyncPlan, scan: &[ExistingFile]| -> Vec<String> {
        plan.orphans.iter().map(|i| scan[*i].filename.clone()).collect()
    };
    assert_eq!(names(&forward, &files), vec!["2026-05-18 - Done.md", "2026-05-18 - Legacy.md"]);
    assert_eq!(names(&backward, &reversed), names(&forward, &files));
}

#[test]
fn a_new_call_file_never_takes_the_name_of_a_file_outside_the_scanned_window() {
    // The windowed scan read no file, but the directory holds the Call's own
    // file (its local date lies before the window's UTC start).
    let c = call("9", "Weekly", "2026-05-18T23:30:00-07:00", Some("x"));
    let unscanned = vec!["2026-05-18 - Weekly.md".to_owned(), "notes.txt".to_owned()];
    let plan = prepare_plan(vec![c], &vec![], &unscanned, false, false).unwrap();
    assert_eq!(plan.operations[0].action, Action::New);
    assert_eq!(plan.operations[0].target, Target::New("2026-05-18 - Weekly (23-30).md".to_owned()));
    let case_folded = vec!["2026-05-18 - WEEKLY.md".to_owned()];
    let c = call("9", "Weekly", "2026-05-18T23:30:00-07:00", Some("x"));
    let plan = prepare_plan(vec![c], &vec![], &case_folded, false, false).unwrap();
    assert_eq!(plan.operations[0].target, Target::New("2026-05-18 - Weekly (23-30).md".to_owned()));
}

#[test]
fn sync_excludes_all_internal_but_writes_unknown_phone_parties() {
    let mut inside = call("1", "Internal sync", "2026-05-19T09:00:00Z", Some("x"));
    inside.parties = vec![internal(), internal()];
    let mut phone = call("2", "Phone", "2026-05-19T10:00:00Z", Some("x"));
    phone.parties = vec![internal(), Party { name: None, affiliation: "Unknown".to_owned(), ..customer() }];
    let plan = prepare_plan(vec![inside, phone], &vec![], &vec![], false, false).unwrap();
    assert_eq!(plan.operations.len(), 1);
    assert_eq!(plan.operations[0].call.metadata.id, "2");
}

#[test]
fn sync_assigns_deterministic_start_time_suffixes_to_title_collisions() {
    let later = call("20", "Standup", "2026-05-19T16:11:00Z", Some("x"));
    let earlier = call("10", "Standup", "2026-05-19T10:11:00Z", Some("x"));
    for calls in [vec![later.clone(), earlier.clone()], vec![earlier.clone(), later.clone()]] {
        let plan = prepare_plan(calls, &vec![], &vec![], false, false).unwrap();
        assert_eq!(plan.operations[0].call.metadata.id, "10");
        assert_eq!(plan.operations[0].target, Target::New("2026-05-19 - Standup.md".to_owned()));
        assert_eq!(plan.operations[1].target, Target::New("2026-05-19 - Standup (16-11).md".to_owned()));
    }
    let planned = plan_filenames(vec![later, earlier]).unwrap();
    assert_eq!(planned[1].filename, "2026-05-19 - Standup (16-11).md");
}

#[test]
fn sync_dry_run_previews_actions_without_transcripts_or_writes() {
    let plan = prepare_plan(vec![call("7", "Demo", "2026-05-19T10:00:00Z", None)], &vec![], &vec![], false, false).unwrap();
    let report = plan.preview();
    assert_eq!(report.summary(), "synced 1 new, healed 0, skipped 0, failed 0");
    assert_eq!(action_name(plan.operations[0].action), "new");
}

#[test]
fn sync_uses_filename_fallback_for_a_float_corrupted_legacy_id() {
    let c = call("1860496513693944597", "Legacy", "2026-05-19T10:00:00Z", Some("x"));
    let contents = "---\ngong_call_id: \"1860496513693944600\"\n---\n# Legacy complete file\n";
    let files = vec![scan_call_file("2026-05-19 - Legacy.md".to_owned(), contents)];
    assert_eq!(files[0].call_id.as_deref(), Some("1860496513693944600"));
    let plan = prepare_plan(vec![c], &files, &dir(&files), false, false).unwrap();
    assert_eq!(plan.operations[0].action, Action::Skip);
    assert_eq!(plan.operations[0].target, Target::Existing(0));
}

#[test]
fn full_force_dry_run_reports_preflight_and_orphans_without_writing() {
    let matched = call("100", "Matched", "2026-05-19T10:00:00Z", Some("x"));
    let fresh = call("200", "Fresh", "2026-05-19T11:00:00Z", Some("x"));
    let files = vec![
        scan_call_file("2020-01-01 - Orphan.md".to_owned(), "orphan bytes"),
        scan_call_file("2026-05-19 - Old title.md".to_owned(), "---\ngong_call_id: \"100\"\n---\n# Existing complete Call File\n"),
    ];
    let plan = prepare_plan(vec![fresh, matched], &files, &dir(&files), true, true).unwrap();
    assert_eq!(plan.operations[0].action, Action::Overwrite);
    assert_eq!(plan.operations[0].target, Target::Existing(1));
    assert_eq!(plan.operations[1].action, Action::New);
    assert_eq!(plan.orphans, vec![0]);
    assert_eq!(preflight_line(&plan), "preflight: overwrite 1, new 1, orphans 1");
    assert_eq!(plan.preview().summary(), "synced 1 new, healed 1, skipped 0, failed 0");
}

#[test]
fn full_force_disambiguates_a_case_equivalent_orphan_path() {
    let files = vec![scan_call_file("2026-05-19 - legacy call.md".to_owned(), "legacy Call whose filename differs only by case")];
    let c = call("300", "Legacy Call", "2026-05-19T10:11:00Z", Some("x"));
    let plan = prepare_plan(vec![c], &files, &dir(&files), true, true).unwrap();
    assert_eq!(plan.operations[0].action, Action::New);
    assert_eq!(plan.operations[0].target, Target::New("2026-05-19 - Legacy Call (10-11).md".to_owned()));
    assert_eq!(preflight_line(&plan), "preflight: overwrite 0, new 1, orphans 1");
}

#[test]
fn outside_full_mode_there_are_no_orphans() {
    let files = vec![scan_call_file("2020-01-01 - Orphan.md".to_owned(), "orphan bytes")];
    let plan = prepare_plan(vec![], &files, &dir(&files), false, false).unwrap();
    assert!(plan.orphans.is_empty());
}

#[test]
fn an_unparsable_start_fails_the_whole_plan() {
    let bad = call("9", "Bad", "yesterday", Some("x"));
    match prepare_plan(vec![call("1", "Fine", "2026-05-19T10:00:00Z", None), bad], &vec![], &vec![], false, false) {
        Err(RenderError::InvalidStarted { call_id, started }) => {
            assert_eq!(call_id, "9");
            assert_eq!(started, "yesterday");
        }
        other => panic!("unexpected {:?}", other.map(|p| p.operations.len())),
    }
}

#[test]
fn collision_keys_fold_case_and_decomposition() {
    assert_eq!(filename_collision_key("2026-05-19 - Legacy Call.md"), "2026-05-19 - legacy call.md");
    assert_eq!(filename_collision_key("Caf\u{e9}.md"), filename_collision_key("CAFE\u{301}.md"));
}

#[test]
fn reserved_names_fall_back_to_start_time_then_id_then_a_number() {
    let started = StartedAt { date: date(2026, 5, 19), hour: 9, minute: 5, utc_seconds: 0, utc_nanos: 0 };
    let base = "2026-05-19 - Sync.md".to_owned();
    let id = "77".to_owned();
    let mut used: Vec<String> = Vec::new();
    assert_eq!(reserve_filename(&base, started, &id, &mut used), "2026-05-19 - Sync.md");
    assert_eq!(reserve_filename(&base, started, &id, &mut used), "2026-05-19 - Sync (09-05).md");
    assert_eq!(reserve_filename(&base, started, &id, &mut used), "2026-05-19 - Sync (09-05)-77.md");
    assert_eq!(reserve_filename(&base, started, &id, &mut used), "2026-05-19 - Sync (09-05)-77-2.md");
    assert_eq!(reserve_filename(&base, started, &id, &mut used), "2026-05-19 - Sync (09-05)-77-3.md");
    assert_eq!(used.len(), 5);
}

#[test]
fn call_files_are_read_for_id_date_and_placeholder() {
    assert_eq!(
        frontmatter_call_id("---\ntitle: \"x\"\ngong_call_id: \"1234567890123456789\"\n---\n# Existing\n").as_deref(),
        Some("1234567890123456789")
    );
    assert_eq!(frontmatter_call_id("gong_call_id: \"1\"\n---\n"), None);
    assert_eq!(frontmatter_call_id("---\n---\ngong_call_id: \"1\"\n"), None);
    let scanned = scan_call_file("f.md".to_owned(), &format!("---\n---\n{PLACEHOLDER}\n"));
    assert!(scanned.incomplete && scanned.call_id.is_none());
    assert_eq!(date_from_filename("2026-05-19 - Existing.md"), Some(date(2026, 5, 19)));
    assert_eq!(date_from_filename("README.md"), None);
    assert_eq!(date_from_filename("2026-13-01 - Bad month.md"), None);
    assert_eq!(date_from_filename("2026-05-19 - notes.txt"), None);
    assert_eq!(scanned_date("2026-05-19 - A.md", Some((date(2026, 5, 16), date(2026, 5, 20)))), Some(date(2026, 5, 19)));
    assert_eq!(scanned_date("2026-05-21 - A.md", Some((date(2026, 5, 16), date(2026, 5, 20)))), None);
    assert_eq!(newest_date(&vec![date(2026, 5, 19), date(2027, 1, 1), date(2026, 12, 31)]), Some(date(2027, 1, 1)));
    assert_eq!(newest_date(&vec![]), None);
}

#[test]
fn a_canonical_file_name_reads_back_as_its_calls_date() {
    let names = [
        ("2026-05-19T23:30:00-07:00", "Ünïcode: rénewal / Q3?", date(2026, 5, 19)),
        ("0999-01-02T00:00:00Z", "Old", date(999, 1, 2)),
        ("2024-02-29T08:00:00+09:00", "Leap day", date(2024, 2, 29)),
    ];
    for (started, title, expected) in names {
        let name = canonical_filename(&call("1", title, started, None)).unwrap();
        assert_eq!(date_from_filename(&name), Some(expected), "{name}");
        assert_eq!(scanned_date(&name, None), Some(expected));
    }
}

#[test]
fn outcomes_are_counted_and_failures_make_exit_code_two() {
    let mut report = SyncReport::empty();
    record_action(&mut report, Action::New);
    record_action(&mut report, Action::Overwrite);
    record_outcome(&mut report, Action::Heal, true);
    record_outcome(&mut report, Action::Skip, false);
    assert_eq!(exit_code(report), 0);
    record_outcome(&mut report, Action::New, false);
    assert_eq!(report.summary(), "synced 1 new, healed 2, skipped 1, failed 1");
    assert_eq!(exit_code(report), 2);
    assert_eq!(action_name(Action::Heal), "healed");
    assert_eq!(action_name(Action::Overwrite), "overwrote");
    assert_eq!(action_name(Action::Skip), "skipped");
}

#[test]
fn transcripts_are_requested_in_batches_of_one_hundred() {
    let ids: Vec<String> = (0..250).map(|i| i.to_string()).collect();
    let batches = transcript_batches(&ids);
    assert_eq!(batches.len(), 3);
    assert_eq!(batches[0].len(), 100);
    assert_eq!(batches[2].len(), 50);
    assert_eq!(batches[2][0], "200");
    assert!(transcript_batches(&vec![]).is_empty());
}

#[test]
fn a_name_whose_tenth_byte_is_inside_a_character_is_not_a_call_file() {
    assert_eq!(date_from_filename("aaaaaaaaaé - x.md"), None);
    assert_eq!(scanned_date("aaaaaaaaaé - x.md", None), None);
    assert_eq!(date_from_filename("2026-05-1é - x.md"), None);
}

#[test]
fn the_preview_counts_new_and_healed_operations_and_skips_the_rest() {
    let unfinished = format!("---\ngong_call_id: \"1\"\n---\n# Unfinished\n\n{PLACEHOLDER}\n");
    let files = vec![
        scan_call_file("2026-05-19 - Unfinished.md".to_owned(), &unfinished),
        scan_call_file("2026-05-19 - Done.md".to_owned(), "---\ngong_call_id: \"3\"\n---\n# Done\n"),
    ];
    let plan = prepare_plan(
        vec![
            call("1", "Unfinished", "2026-05-19T10:00:00Z", Some("Brief")),
            call("2", "Fresh", "2026-05-19T11:00:00Z", Some("Brief")),
            call("3", "Done", "2026-05-19T12:00:00Z", Some("Brief")),
        ],
        &files,
        &dir(&files),
        false,
        false,
    )
    .unwrap();
    assert_eq!(plan.operations[0].action, Action::Heal);
    assert_eq!(plan.operations[1].action, Action::New);
    assert_eq!(plan.operations[2].action, Action::Skip);
    let report = plan.preview();
    assert_eq!(report.new, plan.new_count());
    assert_eq!(report.healed, plan.overwrite_count());
    assert_eq!(report.new + report.healed + report.skipped, plan.operations.len());
    assert_eq!(report.failed, 0);
    assert_eq!(report.summary(), "synced 1 new, healed 1, skipped 1, failed 0");
}

#[test]
fn the_listing_order_does_not_change_the_planned_file_names() {
    let a = call("1", "Standup", "2026-05-19T10:00:00Z", None);
    let b = call("2", "Standup", "2026-05-19T09:00:00Z", None);
    let c = call("3", "Review", "2026-05-18T09:00:00Z", None);
    let names = |calls: Vec<ExtensiveCall>| {
        plan_filenames(calls)
            .unwrap()
            .into_iter()
            .map(|p| (p.call.metadata.id, p.filename))
            .collect::<Vec<_>>()
    };
    let first = names(vec![a.clone(), b.clone(), c.clone()]);
    assert_eq!(first, names(vec![c.clone(), a.clone(), b.clone()]));
    assert_eq!(first, names(vec![b, c, a]));
    assert_eq!(first[0], ("3".to_owned(), "2026-05-18 - Review.md".to_owned()));
    assert_eq!(first[1], ("2".to_owned(), "2026-05-19 - Standup.md".to_owned()));
}

#[test]
fn file_names_are_planned_for_every_call_given_and_fail_on_any_bad_start() {
    let mut internal_only = call("9", "Internal sync", "yesterday", None);
    internal_only.parties = vec![internal()];
    match plan_filenames(vec![internal_only]) {
        Err(RenderError::InvalidStarted { call_id, started }) => {
            assert_eq!(call_id, "9");
            assert_eq!(started, "yesterday");
        }
        other => panic!("expected an invalid start, got {other:?}"),
    }
    let mut internal_ok = call("8", "Internal sync", "2026-05-19T09:00:00Z", None);
    internal_ok.parties = vec![internal()];
    let planned = plan_filenames(vec![internal_ok]).unwrap();
    assert_eq!(planned.len(), 1);
    assert_eq!(planned[0].filename, "2026-05-19 - Internal sync.md");
    let mut internal_bad = call("9", "Internal sync", "yesterday", None);
    internal_bad.parties = vec![internal()];
    let plan = prepare_plan(vec![internal_bad, call("1", "Demo", "2026-05-19T10:00:00Z", None)], &vec![], &vec![], false, false).unwrap();
    assert_eq!(plan.operations.len(), 1);
    assert_eq!(plan.operations[0].call.metadata.id, "1");
}

#[test]
fn render_errors_have_readable_messages() {
    let invalid = RenderError::InvalidStarted { call_id: "9".to_owned(), started: "yesterday".to_owned() };
    assert_eq!(invalid.message(), "Call 9 has invalid started timestamp \"yesterday\"");
    let quoted = RenderError::InvalidStarted { call_id: "9".to_owned(), started: "a\"b".to_owned() };
    assert_eq!(quoted.message(), "Call 9 has invalid started timestamp \"a\\\"b\"");
    let mismatch = RenderError::TranscriptMismatch { call_id: "1".to_owned(), transcript_call_id: "2".to_owned() };
    assert_eq!(mismatch.message(), "cannot merge Call 1 with transcript for 2");
}

#[test]
fn a_run_counts_each_operation_once() {
    let mut report = SyncReport::empty();
    for (action, written) in [(Action::New, true), (Action::Heal, false), (Action::Skip, false), (Action::Overwrite, true)] {
        record_outcome(&mut report, action, written);
    }
    assert_eq!((report.new, report.healed, report.skipped, report.failed), (1, 1, 1, 1));
    assert_eq!(report.new + report.healed + report.skipped + report.failed, 4);
}

use gong_cli::api::{CallMetadata, CrmContext, CrmField, CrmObject, ExtensiveCall, Party};
use gong_cli::commands::{
    is_affirmative, list_row, list_rows, report_permissions, sync_step, table_text,
    tracing_directive, ListRow, SyncStep,
};

fn call(id: &str, started: &str, affiliation: &str) -> ExtensiveCall {
    ExtensiveCall {
        metadata: CallMetadata {
            id: id.to_owned(),
            title: format!("Fixture_{id}"),
            started: started.to_owned(),
            duration: 3599,
            primary_user_id: None,
            system: None,
            url: None,
        },
        parties: vec![Party {
            id: None,
            name: None,
            email_address: None,
            title: None,
            affiliation: affiliation.to_owned(),
            speaker_id: None,
            user_id: None,
        }],
        context: vec![],
        content: None,
    }
}

#[test]
fn list_json_emits_the_documented_shape_from_a_real_call() {
    let mut c = call("1860496513693944597", "2026-05-19T10:11:00-07:00", "External");
    c.context = vec![CrmContext {
        objects: vec![CrmObject {
            object_type: "Account".to_owned(),
            fields: vec![CrmField { name: "Name".to_owned(), value: Some("Customer A".to_owned()) }],
        }],
    }];
    let row = list_row(&c);
    assert_eq!(row.id, "1860496513693944597");
    assert_eq!(row.title, "Fixture_1860496513693944597");
    assert_eq!(row.started, "2026-05-19T10:11:00-07:00");
    assert_eq!(row.duration_minutes, 59);
    assert_eq!(row.account, "Customer A");
}

#[test]
fn list_excludes_only_all_internal_calls_and_keeps_unknown_phone_parties() {
    let calls = vec![
        call("1", "2026-05-19T10:00:00Z", "Internal"),
        call("2", "2026-05-19T11:00:00Z", "Unknown"),
        call("3", "2026-05-19T12:00:00Z", "External"),
    ];
    let rows = list_rows(&calls);
    let ids: Vec<&str> = rows.iter().map(|r| r.id.as_str()).collect();
    assert_eq!(ids, vec!["2", "3"]);
    assert_eq!(rows[0].account, "");
}

#[test]
fn human_table_preserves_the_calls_own_date_time_and_full_id() {
    let rows = vec![
        list_row(&call("1860496513693944597", "2026-05-19T16:11:00-07:00", "External")),
        ListRow {
            id: "9".to_owned(),
            title: "Odd".to_owned(),
            started: "not a time".to_owned(),
            duration_minutes: 0,
            account: "Acme".to_owned(),
        },
    ];
    assert_eq!(
        table_text(&rows),
        "DATE\tTIME\tID\tTITLE\tACCOUNT\n2026-05-19\t16:11\t1860496513693944597\tFixture_1860496513693944597\t\nnot a time\t\t9\tOdd\tAcme\n"
    );
}

#[test]
fn permissive_config_is_a_warning_not_a_failure() {
    assert_eq!(
        report_permissions(0o100644, "/home/u/config.toml"),
        "[WARN] config permissions: /home/u/config.toml is readable by group or others; run chmod 600 /home/u/config.toml"
    );
    assert_eq!(report_permissions(0o100600, "/x"), "[PASS] config permissions: owner-only");
    assert!(report_permissions(0o601, "/x").starts_with("[WARN]"));
}

#[test]
fn force_confirmation_accepts_only_yes() {
    assert!(is_affirmative("y\n"));
    assert!(is_affirmative("  YES "));
    assert!(is_affirmative("Yes"));
    assert!(!is_affirmative("n\n"));
    assert!(!is_affirmative(""));
    assert!(!is_affirmative("yes please"));
    assert!(!is_affirmative("yep"));
}

#[test]
fn sync_previews_confirms_or_executes() {
    assert_eq!(sync_step(true, true, true), SyncStep::Preview);
    assert_eq!(sync_step(false, true, false), SyncStep::Confirm);
    assert_eq!(sync_step(false, true, true), SyncStep::Execute);
    assert_eq!(sync_step(false, false, false), SyncStep::Execute);
}

#[test]
fn verbosity_picks_the_log_level() {
    assert_eq!(tracing_directive(0), "warn");
    assert_eq!(tracing_directive(1), "info");
    assert_eq!(tracing_directive(2), "debug");
    assert_eq!(tracing_directive(9), "trace");
}

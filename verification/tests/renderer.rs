use gong_cli::api::{
    CallContent, CallMetadata, CallTranscript, CrmContext, CrmField, CrmObject, ExtensiveCall,
    Highlight, HighlightItem, OutlineItem, OutlineSection, Party, Sentence, TextItem,
    TranscriptEntry,
};
use gong_cli::renderer::{
    build_turns, canonical_filename, emit_bullets, emit_turns, render_call,
    sanitize_filename_title, yaml_string, MergedCall, RenderError, PLACEHOLDER,
};
use gong_cli::text::{escape_yaml, format_milliseconds};

const REFERENCE_CALL_ID: &str = "1860496513693944597";

fn text(s: &str) -> Option<String> {
    Some(s.to_owned())
}

fn party(
    name: Option<&str>,
    title: Option<&str>,
    email: Option<&str>,
    affiliation: &str,
    speaker_id: Option<&str>,
    user_id: Option<&str>,
) -> Party {
    Party {
        id: None,
        name: name.map(str::to_owned),
        email_address: email.map(str::to_owned),
        title: title.map(str::to_owned),
        affiliation: affiliation.to_owned(),
        speaker_id: speaker_id.map(str::to_owned),
        user_id: user_id.map(str::to_owned),
    }
}

fn metadata(id: &str, title: &str, started: &str, duration: u64) -> CallMetadata {
    CallMetadata {
        id: id.to_owned(),
        title: title.to_owned(),
        started: started.to_owned(),
        duration,
        primary_user_id: None,
        system: None,
        url: None,
    }
}

fn sentence(start: u64, words: &str) -> Sentence {
    Sentence { start, end: start + 1000, text: words.to_owned() }
}

fn entry(speaker_id: &str, sentences: Vec<Sentence>) -> TranscriptEntry {
    TranscriptEntry { speaker_id: speaker_id.to_owned(), topic: None, sentences }
}

fn account_context(account: &str) -> Vec<CrmContext> {
    vec![CrmContext {
        objects: vec![
            CrmObject {
                object_type: "Opportunity".to_owned(),
                fields: vec![CrmField { name: "Current_ARR__c".to_owned(), value: text("V_90000") }],
            },
            CrmObject {
                object_type: "Account".to_owned(),
                fields: vec![
                    CrmField { name: "Current_ARR__c".to_owned(), value: text("V_120000") },
                    CrmField { name: "Name".to_owned(), value: text(account) },
                ],
            },
        ],
    }]
}

fn reference_call() -> MergedCall {
    let mut meta = metadata(
        REFERENCE_CALL_ID,
        "Fixture_Renewal check-in: Q3/Q4 plan",
        "2026-05-19T10:30:00-07:00",
        3780,
    );
    meta.primary_user_id = text("user-host");
    meta.system = text("Zoom");
    meta.url = text("https://app.gong.io/call?id=1860496513693944597");
    let call = ExtensiveCall {
        metadata: meta,
        parties: vec![
            party(Some("Hana Host"), Some("Account Executive"), Some("hana@internal-example.com"), "Internal", Some("s-host"), Some("user-host")),
            party(Some("Carl Customer"), Some("CTO"), Some("carl@customer-a.example"), "External", Some("s-carl"), None),
            party(None, None, None, "Unknown", Some("s-phone"), None),
            party(Some("Ivan Internal"), None, Some("ivan@internal-example.com"), "Internal", Some("s-ivan"), Some("user-ivan")),
            party(Some("Beth Buyer"), None, Some("beth@customer-a.example"), "External", None, None),
        ],
        context: account_context("Customer A"),
        content: Some(CallContent {
            brief: text("  Carl's team confirmed the Q3 renewal.  "),
            key_points: Some(vec![
                TextItem { text: "Renewal is on track".to_owned() },
                TextItem { text: "   ".to_owned() },
                TextItem { text: "Agent mapping needs a fix".to_owned() },
            ]),
            highlights: Some(vec![
                Highlight { title: "Pricing".to_owned(), items: vec![HighlightItem { text: "Discount discussed".to_owned() }] },
                Highlight { title: "next STEPS".to_owned(), items: vec![HighlightItem { text: " Send the order form ".to_owned() }] },
            ]),
            outline: Some(vec![
                OutlineSection { section: "Agent Mapping Issue".to_owned(), start_ms: Some(95_500), items: vec![OutlineItem { text: "mapping".to_owned() }] },
                OutlineSection { section: "Environment Access".to_owned(), start_ms: Some(0), items: vec![] },
                OutlineSection { section: "Untimed".to_owned(), start_ms: None, items: vec![] },
            ]),
        }),
    };
    let transcript = CallTranscript {
        call_id: REFERENCE_CALL_ID.to_owned(),
        transcript: vec![
            entry("s-host", vec![sentence(1_000, "Welcome everyone."), sentence(3_000, " Let's start. ")]),
            entry("s-host", vec![sentence(9_000, "Any questions?")]),
            entry("s-carl", vec![sentence(62_000, "We are ready to renew.")]),
            entry("s-phone", vec![sentence(96_000, "Mapping fails for two agents.")]),
            entry("s-ivan", vec![]),
            entry("s-ivan", vec![sentence(120_000, "   ")]),
        ],
    };
    MergedCall { call, transcript }
}

fn without_transcript(call: ExtensiveCall) -> MergedCall {
    MergedCall {
        transcript: CallTranscript { call_id: call.metadata.id.clone(), transcript: Vec::new() },
        call,
    }
}

fn has_turn_line(markdown: &str) -> bool {
    markdown.lines().any(|line| {
        let Some((stamp, rest)) = line.split_once('|') else { return false };
        let stamp = stamp.trim_end();
        let Some((minutes, seconds)) = stamp.split_once(':') else { return false };
        !minutes.is_empty()
            && minutes.chars().all(|c| c.is_ascii_digit())
            && !seconds.is_empty()
            && seconds.chars().all(|c| c.is_ascii_digit())
            && rest.trim_start().chars().next().is_some_and(|c| c.is_alphanumeric() || c == '_')
    })
}

#[test]
fn reference_call_renders_deterministically_for_retrieval_and_existing_consumers() {
    let merged = reference_call();
    let first = render_call(&merged).unwrap();
    let second = render_call(&merged).unwrap();

    assert_eq!(first, second);
    assert!(first.filename.starts_with("2026-05-19 - Fixture_"));
    assert!(!first.filename[13..].contains('/'));
    assert!(first.markdown.starts_with("---\ntitle: "));
    assert_eq!(first.markdown.matches("\n# ").count(), 1);
    assert!(first.markdown.contains("\n## Summary\n"));
    assert!(first.markdown.contains("\n## Outline\n"));
    assert!(first.markdown.contains("\n## Transcript\n"));
    assert!(first.markdown.contains("# Transcript"));
    assert!(first.markdown.contains("\nduration_minutes: "));
    assert!(has_turn_line(&first.markdown));
    assert!(!first.markdown.contains(PLACEHOLDER));
    assert!(!first.markdown.contains("Current_ARR__c"));
    assert!(!first.markdown.contains("V_"));
    assert_eq!(first.markdown, reference_file());
}

fn file_of(lines: &[&str]) -> String {
    lines.iter().map(|l| format!("{l}\n")).collect()
}

// The front matter of the reference Call, with or without its Account line.
fn reference_frontmatter(with_account: bool) -> Vec<&'static str> {
    let mut lines = vec!["---", "title: \"Fixture_Renewal check-in: Q3/Q4 plan\""];
    if with_account {
        lines.push("account: \"Customer A\"");
    }
    lines.extend([
        "date: \"2026-05-19\"",
        "started: \"2026-05-19T10:30:00-07:00\"",
        "duration_minutes: 63",
        "meeting_provider: \"Zoom\"",
        "host: \"Hana Host\"",
        "gong_call_id: \"1860496513693944597\"",
        "gong_url: \"https://app.gong.io/call?id=1860496513693944597\"",
        "document_type: \"meeting-notes\"",
        "source_type: \"gong-transcript\"",
        "customer_contacts:",
        "  - {}",
        "  - name: \"Beth Buyer\"",
        "    email: \"beth@customer-a.example\"",
        "  - name: \"Carl Customer\"",
        "    title: \"CTO\"",
        "    email: \"carl@customer-a.example\"",
        "internal_attendees:",
        "  - name: \"Hana Host\"",
        "    title: \"Account Executive\"",
        "    email: \"hana@internal-example.com\"",
        "  - name: \"Ivan Internal\"",
        "    email: \"ivan@internal-example.com\"",
        "---",
        "",
        "# Fixture_Renewal check-in: Q3/Q4 plan",
        "",
    ]);
    lines
}

// The Summary, Outline and Transcript headings of the reference Call's spotlight.
fn reference_spotlight() -> Vec<&'static str> {
    vec![
        "## Summary",
        "",
        "Carl's team confirmed the Q3 renewal.",
        "",
        "### Key points",
        "",
        "- Renewal is on track",
        "- Agent mapping needs a fix",
        "",
        "### Next steps",
        "",
        "- Send the order form",
        "",
        "## Outline",
        "",
        "- [0:00] Environment Access",
        "- [1:35] Agent Mapping Issue",
        "",
        "## Transcript",
        "",
    ]
}

fn reference_file() -> String {
    let mut lines = reference_frontmatter(true);
    lines.extend(reference_spotlight());
    lines.extend([
        "### Environment Access [0:00]",
        "",
        "0:01 | Hana Host",
        "Welcome everyone. Let's start. Any questions?",
        "",
        "1:02 | Carl Customer",
        "We are ready to renew.",
        "",
        "### Agent Mapping Issue [1:35]",
        "",
        "1:36 | Unknown",
        "Mapping fails for two agents.",
        "",
    ]);
    file_of(&lines)
}

#[test]
fn reference_call_renders_the_exact_canonical_file() {
    let rendered = render_call(&reference_call()).unwrap();
    assert_eq!(rendered.filename, "2026-05-19 - Fixture_Renewal check-in- Q3-Q4 plan.md");
    assert_eq!(rendered.markdown, reference_file());
}

#[test]
fn missing_spotlight_uses_the_exact_placeholder_in_each_affected_subsection() {
    let mut call = reference_call().call;
    call.content = None;
    let rendered = render_call(&without_transcript(call)).unwrap();

    assert_eq!(rendered.markdown.matches(PLACEHOLDER).count(), 3);
    assert!(!rendered.markdown.contains("\n## Outline\n"));
    assert!(!rendered.markdown.split("## Transcript").nth(1).unwrap().contains("### "));
    let mut lines = reference_frontmatter(true);
    lines.extend([
        "## Summary",
        "",
        PLACEHOLDER,
        "",
        "### Key points",
        "",
        PLACEHOLDER,
        "",
        "### Next steps",
        "",
        PLACEHOLDER,
        "",
        "## Transcript",
        "",
    ]);
    assert_eq!(rendered.markdown, file_of(&lines));
}

#[test]
fn missing_account_is_omitted_instead_of_leaking_other_crm_fields() {
    let mut call = reference_call().call;
    call.context = vec![CrmContext {
        objects: vec![CrmObject {
            object_type: "Opportunity".to_owned(),
            fields: vec![
                CrmField { name: "Current_ARR__c".to_owned(), value: text("V_90000") },
                CrmField { name: "Name".to_owned(), value: text("V_Deal") },
            ],
        }],
    }];
    assert!(call.account_name().is_none() && call.content.is_some());
    let rendered = render_call(&without_transcript(call)).unwrap();

    assert!(!rendered.markdown.lines().any(|line| line.starts_with("account:")));
    assert!(!rendered.markdown.contains("Current_ARR__c"));
    assert!(!rendered.markdown.contains("V_"));
    let mut lines = reference_frontmatter(false);
    lines.extend(reference_spotlight());
    lines.extend(["### Environment Access [0:00]", "", "### Agent Mapping Issue [1:35]", ""]);
    assert_eq!(rendered.markdown, file_of(&lines));
}

#[test]
fn unknown_phone_party_is_included_and_renders_as_unknown_speaker() {
    let mut call = reference_call().call;
    call.content = None;
    call.parties = vec![
        party(Some("Hana Host"), None, Some("hana@internal-example.com"), "Internal", Some("s-host"), Some("user-host")),
        party(None, None, None, "Unknown", Some("phone-1"), None),
        party(None, None, None, "Unknown", Some("phone-2"), None),
        party(None, None, None, "Unknown", Some("phone-3"), None),
        party(None, None, None, "Unknown", Some("phone-4"), None),
        party(None, None, None, "Unknown", Some("phone-5"), None),
    ];
    assert!(
        call.parties
            .iter()
            .filter(|p| p.affiliation == "Unknown" && p.name.is_none() && p.email_address.is_none())
            .count()
            >= 5
    );
    let speaker_id = call
        .parties
        .iter()
        .find(|p| p.affiliation == "Unknown" && p.name.is_none())
        .unwrap()
        .speaker_id
        .clone()
        .unwrap();
    let transcript = CallTranscript {
        call_id: call.metadata.id.clone(),
        transcript: vec![TranscriptEntry {
            speaker_id,
            topic: Some("ignored topic".to_owned()),
            sentences: vec![Sentence {
                start: 754_123,
                end: 756_000,
                text: "Synthetic phone contribution.".to_owned(),
            }],
        }],
    };
    let rendered = render_call(&MergedCall { call, transcript }).unwrap();

    assert!(rendered.markdown.contains("12:34 | Unknown\nSynthetic phone contribution."));
    assert!(rendered.markdown.contains("customer_contacts:\n  - {}"));
}

#[test]
fn party_order_does_not_change_rendered_bytes() {
    let merged = reference_call();
    let expected = render_call(&merged).unwrap();
    let mut reordered = merged.clone();
    reordered.call.parties.reverse();

    assert_eq!(render_call(&reordered).unwrap(), expected);
}

#[test]
fn crm_fields_other_than_the_account_name_do_not_reach_the_file() {
    let merged = reference_call();
    let expected = render_call(&merged).unwrap();
    let mut other = merged.clone();
    other.call.context = vec![CrmContext {
        objects: vec![CrmObject {
            object_type: "Account".to_owned(),
            fields: vec![
                CrmField { name: "Name".to_owned(), value: text("Customer A") },
                CrmField { name: "Renewal_Date__c".to_owned(), value: text("2027-01-01") },
            ],
        }],
    }];
    assert_eq!(render_call(&other).unwrap(), expected);
    assert!(!expected.markdown.contains("V_120000"));
}

#[test]
fn filename_sanitization_replaces_every_hostile_character_and_collapses_whitespace() {
    assert_eq!(
        sanitize_filename_title("  A<>:\"/\\|?*  “Curly”\tTitle  "),
        "A--------- “Curly” Title"
    );
}

#[test]
fn a_transcript_for_another_call_is_refused() {
    let mut merged = reference_call();
    merged.transcript.call_id = "999".to_owned();
    match render_call(&merged) {
        Err(RenderError::TranscriptMismatch { call_id, transcript_call_id }) => {
            assert_eq!(call_id, REFERENCE_CALL_ID);
            assert_eq!(transcript_call_id, "999");
        }
        other => panic!("unexpected {other:?}"),
    }
}

#[test]
fn an_invalid_start_is_refused_with_the_call_and_the_text() {
    let mut merged = reference_call();
    merged.call.metadata.started = "19 May 2026".to_owned();
    match render_call(&merged) {
        Err(RenderError::InvalidStarted { call_id, started }) => {
            assert_eq!(call_id, REFERENCE_CALL_ID);
            assert_eq!(started, "19 May 2026");
        }
        other => panic!("unexpected {other:?}"),
    }
    assert!(matches!(
        canonical_filename(&merged.call),
        Err(RenderError::InvalidStarted { .. })
    ));
}

#[test]
fn canonical_filename_uses_the_calls_own_date() {
    let call = ExtensiveCall {
        metadata: metadata("1", " Late  call ", "2026-05-19T23:30:00-07:00", 60),
        parties: vec![],
        context: vec![],
        content: None,
    };
    assert_eq!(canonical_filename(&call).unwrap(), "2026-05-19 - Late call.md");
}

#[test]
fn yaml_values_are_escaped() {
    assert_eq!(escape_yaml("a\\b\"c\nd\re\tf"), "a\\\\b\\\"c\\nd\\re\\tf");
    let mut out = String::new();
    yaml_string(&mut out, "title", "Say \"hi\"");
    assert_eq!(out, "title: \"Say \\\"hi\\\"\"\n");
}

#[test]
fn milliseconds_are_shown_as_minutes_and_seconds() {
    assert_eq!(format_milliseconds(0), "0:00");
    assert_eq!(format_milliseconds(754_123), "12:34");
    assert_eq!(format_milliseconds(3_725_999), "62:05");
}

#[test]
fn bullets_drop_blank_items_and_fall_back_to_the_placeholder() {
    let mut out = String::new();
    emit_bullets(&mut out, &vec![" one ", "", "two"]);
    assert_eq!(out, "- one\n- two\n\n");
    let mut empty = String::new();
    emit_bullets(&mut empty, &vec!["  "]);
    assert_eq!(empty, format!("{PLACEHOLDER}\n\n"));
}

#[test]
fn consecutive_entries_of_one_speaker_form_one_turn() {
    let merged = reference_call();
    let turns = build_turns(&merged.call.parties, &merged.transcript);
    assert_eq!(turns.len(), 3);
    assert_eq!(turns[0].speaker_name, "Hana Host");
    assert_eq!(turns[0].start_ms, 1_000);
    assert_eq!(turns[0].text, "Welcome everyone. Let's start. Any questions?");
    assert_eq!(turns[2].speaker_name, "Unknown");
    let mut out = String::new();
    emit_turns(&mut out, &turns[1..2].to_vec());
    assert_eq!(out, "1:02 | Carl Customer\nWe are ready to renew.\n\n");
}

#[test]
fn sanitizing_a_sanitized_title_changes_nothing() {
    for title in ["  A<>:\"/\\|?*  “Curly”\tTitle  ", "Q3/Q4:  plan ", "plain", ""] {
        let once = sanitize_filename_title(title);
        assert_eq!(sanitize_filename_title(&once), once);
    }
}

#[test]
fn escaped_yaml_values_hold_no_raw_line_breaks_and_stay_distinct() {
    assert_eq!(escape_yaml("a\"b\\c\nd"), "a\\\"b\\\\c\\nd");
    let values = ["a\nb", "a\\nb", "a\\\nb", "a\rb", "a\tb", "a\\tb", "\"", "\\\""];
    for (i, a) in values.iter().enumerate() {
        let ea = escape_yaml(a);
        assert!(!ea.contains('\n') && !ea.contains('\r') && !ea.contains('\t'));
        for b in &values[i + 1..] {
            assert_ne!(ea, escape_yaml(b));
        }
    }
}

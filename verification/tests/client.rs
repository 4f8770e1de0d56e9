use gong_cli::api::CallTranscript;
use gong_cli::client::{
    after_response, backoff, choose_retry_delay, error_entries, error_message_from, find_transcript,
    gong_error_message, parse_u64, retry_delay, should_retry, Delay, ErrorEntry, PageStep,
    Paginator, ResponseStep,
};
use gong_cli::transcripts::TranscriptResults;
use gong_cli::json::{Json, JsonMember, JsonNode};

fn transcript(call_id: &str) -> CallTranscript {
    CallTranscript { call_id: call_id.to_owned(), transcript: vec![] }
}

#[test]
fn pagination_follows_new_cursors_and_refuses_a_repeated_one() {
    let mut pages = Paginator::new();
    assert!(matches!(pages.after_page(Some("next-page".to_owned())), PageStep::Next(c) if c == "next-page"));
    assert!(matches!(pages.after_page(Some("page-3".to_owned())), PageStep::Next(c) if c == "page-3"));
    assert!(matches!(pages.after_page(Some("next-page".to_owned())), PageStep::Loop(c) if c == "next-page"));
    assert!(matches!(pages.after_page(None), PageStep::Done));
}

#[test]
fn only_a_429_with_retries_left_is_retried() {
    assert!(should_retry(429, 0));
    assert!(should_retry(429, 3));
    assert!(!should_retry(429, 4));
    assert!(!should_retry(500, 0));
    assert_eq!(after_response(429, 1), ResponseStep::Retry);
    assert_eq!(after_response(429, 4), ResponseStep::Fail);
    assert_eq!(after_response(401, 0), ResponseStep::Fail);
    assert_eq!(after_response(200, 0), ResponseStep::Parse);
    assert_eq!(after_response(204, 2), ResponseStep::Parse);
}

#[test]
fn backoff_doubles_from_a_quarter_second_up_to_ten_seconds() {
    assert_eq!(backoff(0), Delay { secs: 0, nanos: 250_000_000 });
    assert_eq!(backoff(1), Delay { secs: 0, nanos: 500_000_000 });
    assert_eq!(backoff(3), Delay { secs: 2, nanos: 0 });
    assert_eq!(backoff(5), Delay { secs: 8, nanos: 0 });
    assert_eq!(backoff(6), Delay { secs: 10, nanos: 0 });
    assert_eq!(backoff(200), Delay { secs: 10, nanos: 0 });
}

#[test]
fn decimal_parsing_matches_str_parse() {
    for text in ["0", "7", "+12", "0042", "18446744073709551615", "", "+", "-1", " 1", "1.5", "18446744073709551616", "9x"] {
        assert_eq!(parse_u64(text), text.parse::<u64>().ok(), "{text:?}");
    }
}

#[test]
fn retry_after_seconds_win_then_the_http_date_then_the_backoff() {
    assert_eq!(retry_delay(Some("3"), 0), Delay { secs: 3, nanos: 0 });
    assert_eq!(retry_delay(None, 2), Delay { secs: 1, nanos: 0 });
    assert_eq!(retry_delay(Some("soon"), 1), Delay { secs: 0, nanos: 500_000_000 });
    assert_eq!(retry_delay(Some("Wed, 21 Oct 2015 07:28:00 GMT"), 0), backoff(0));
    let d = Delay { secs: 7, nanos: 5 };
    assert_eq!(choose_retry_delay(Some("Wed, 21 Oct 2099 07:28:00 GMT"), Some(d), 0), d);
    assert_eq!(choose_retry_delay(Some("12"), Some(d), 0), Delay { secs: 12, nanos: 0 });
    assert_eq!(choose_retry_delay(None, Some(d), 1), backoff(1));
    let far = retry_delay(Some("Wed, 21 Oct 2099 07:28:00 GMT"), 0);
    assert!(far.secs > 1_000_000);
}

#[test]
fn gong_error_text_joins_the_errors_or_falls_back_to_the_body() {
    assert_eq!(
        gong_error_message(r#"{"errors":["The supplied Gong credentials are invalid"]}"#),
        "The supplied Gong credentials are invalid"
    );
    assert_eq!(
        gong_error_message(r#"{"errors":[{"message":"shared API limit reached"},"second",{"code":7}]}"#),
        "shared API limit reached; second; {\"code\":7}"
    );
    assert_eq!(gong_error_message("  upstream timeout \n"), "upstream timeout");
    assert_eq!(gong_error_message(r#"{"requestId":"x"}"#), r#"{"requestId":"x"}"#);
    let entries = vec![
        ErrorEntry { text: None, message: Some("m".to_owned()), json: "{}".to_owned() },
        ErrorEntry { text: None, message: None, json: "3".to_owned() },
    ];
    assert_eq!(error_message_from("ignored", Some(entries)), "m; 3");
    assert_eq!(error_message_from(" body ", None), "body");
}

#[test]
fn the_transcript_for_a_call_is_the_first_with_its_id() {
    let found = find_transcript(vec![transcript("1"), transcript("2")], "2").unwrap();
    assert_eq!(found.call_id, "2");
    assert!(find_transcript(vec![transcript("1")], "3").is_none());
}

#[test]
fn batched_transcripts_are_filed_by_call_and_taken_once() {
    let mut results = TranscriptResults::new();
    results.record_batch(vec![transcript("a"), transcript("b")]);
    results.record_one("c".to_owned(), Err("synthetic transcript failure".to_owned()));
    assert!(matches!(results.take("a"), Some(Ok(t)) if t.call_id == "a"));
    assert!(results.take("a").is_none());
    assert!(matches!(results.take("c"), Some(Err(e)) if e == "synthetic transcript failure"));
    assert!(results.take("missing").is_none());
    results.record_one("b".to_owned(), Err("later".to_owned()));
    assert!(matches!(results.take("b"), Some(Err(e)) if e == "later"));
}

fn node(json: Json, compact: &str) -> JsonNode {
    JsonNode { json, compact: compact.to_owned() }
}

fn string(s: &str) -> JsonNode {
    node(Json::Str(s.to_owned()), &format!("{s:?}"))
}

#[test]
fn error_entries_read_the_errors_member_and_each_message() {
    let message = node(
        Json::Object(vec![JsonMember { key: "message".to_owned(), value: string("limit") }]),
        r#"{"message":"limit"}"#,
    );
    let code = node(
        Json::Object(vec![JsonMember { key: "code".to_owned(), value: node(Json::Number, "7") }]),
        r#"{"code":7}"#,
    );
    let errors = node(Json::Array(vec![string("plain"), message, code]), "[...]");
    let doc = node(
        Json::Object(vec![
            JsonMember { key: "error".to_owned(), value: string("not this one") },
            JsonMember { key: "errors".to_owned(), value: errors },
        ]),
        "{...}",
    );
    let entries = error_entries(&doc).unwrap();
    assert_eq!(entries.len(), 3);
    assert_eq!(entries[0].text.as_deref(), Some("plain"));
    assert_eq!(entries[1].text, None);
    assert_eq!(entries[1].message.as_deref(), Some("limit"));
    assert_eq!(entries[2].message, None);
    assert_eq!(entries[2].json, r#"{"code":7}"#);
    assert_eq!(error_message_from("", Some(entries)), r#"plain; limit; {"code":7}"#);
    let not_an_array = node(
        Json::Object(vec![JsonMember { key: "errors".to_owned(), value: string("x") }]),
        r#"{"errors":"x"}"#,
    );
    assert!(error_entries(&not_an_array).is_none());
    assert!(error_entries(&string("errors")).is_none());
}

#[test]
fn a_failed_batch_is_retried_call_by_call_and_a_good_one_is_filed() {
    let mut results = TranscriptResults::new();
    let batch = vec!["a".to_owned(), "b".to_owned()];
    let retry = results.record_batch_outcome(&batch, Err("batch failed".to_owned()));
    assert_eq!(retry, batch);
    assert!(results.take("a").is_none());
    let retry = results.record_batch_outcome(&batch, Ok(vec![transcript("a"), transcript("b")]));
    assert!(retry.is_empty());
    assert!(matches!(results.take("b"), Some(Ok(t)) if t.call_id == "b"));
}

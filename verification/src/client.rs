//! The decisions of the Gong HTTP client: which page to request next, when
//! and how long to back off from a rate limit, which record of a response
//! answers a request, and what error text a failed request reports.
use vstd::prelude::*;
use vstd::arithmetic::power2::{pow2, lemma2_to64, lemma_pow2_unfold, lemma_pow2_strictly_increases};
use crate::api::{opt_view, CallTranscript, ExtensiveCall};
use crate::dates::is_digit;
use crate::json::{as_str, get_member, member, parse_json, spec_parse_json, Json, JsonNode, JsonNodeView, JsonView};
use crate::text::{chars_of, push_str, str_eq, trim, trim_str};

verus! {

// ---------------------------------------------------------------------------
// Pagination.

/// What a listing does after one page of `/v2/calls/extensive`.
#[derive(Debug, Clone)]
pub enum PageStep {
    /// The page carried no cursor: the listing is complete.
    Done,
    /// Request the next page with this cursor.
    Next(String),
    /// Gong repeated a cursor that was already followed: the listing stops
    /// with an error instead of looping forever.
    Loop(String),
}

/// The cursors one paginated listing has followed.
pub struct Paginator {
    seen: Vec<String>,
}

impl Paginator {
    /// The cursors followed so far, in order.
    pub closed spec fn followed(&self) -> Seq<Seq<char>> {
        self.seen@.map_values(|c: String| c@)
    }

    /// No cursor is ever followed twice.
    #[verifier::type_invariant]
    spec fn cursors_distinct(self) -> bool {
        self.followed().no_duplicates()
    }

    /// A listing that has not followed any cursor.
    pub fn new() -> (r: Paginator)
        ensures
            r.followed() == Seq::<Seq<char>>::empty(),
    {
        let r = Paginator { seen: Vec::new() };
        assert(r.followed() =~= Seq::<Seq<char>>::empty());
        r
    }

    /// Decides what follows a page whose `records.cursor` is `cursor`: stop
    /// when there is none, follow a cursor not seen before, and refuse one
    /// that was already followed.  The cursors followed stay pairwise
    /// distinct, so a listing never requests the same page twice.
    #[verifier::loop_isolation(false)]
    pub fn after_page(&mut self, cursor: Option<String>) -> (r: PageStep)
        ensures
            final(self).followed().no_duplicates(),
            match cursor {
                None => r is Done && final(self).followed() == old(self).followed(),
                Some(c) => if old(self).followed().contains(c@) {
                    &&& r == PageStep::Loop(c)
                    &&& final(self).followed() == old(self).followed()
                } else {
                    &&& r == PageStep::Next(c)
                    &&& final(self).followed() == old(self).followed().push(c@)
                },
            },
    {
        proof {
            use_type_invariant(&*self);
        }
        let c = match cursor {
            None => return PageStep::Done,
            Some(c) => c,
        };
        let ghost before = self.followed();
        let mut i: usize = 0;
        while i < self.seen.len()
            invariant
                i <= self.seen.len(),
                before == self.followed(),
                forall|j: int| 0 <= j < i ==> self.seen@[j]@ != c@,
            decreases self.seen.len() - i,
        {
            if str_eq(self.seen[i].as_str(), c.as_str()) {
                assert(before[i as int] == c@);
                return PageStep::Loop(c);
            }
            i = i + 1;
        }
        assert(!before.contains(c@)) by {
            if before.contains(c@) {
                let j = choose|j: int| 0 <= j < before.len() && before[j] == c@;
                assert(self.seen@[j]@ == c@);
            }
        }
        let ghost after = before.push(c@);
        assert(after.no_duplicates()) by {
            assert forall|x: int, y: int| 0 <= x < after.len() && 0 <= y < after.len() && x != y
                implies after[x] != after[y] by {
                if x < before.len() && y < before.len() {
                    assert(before[x] != before[y]);
                }
            }
        }
        let mut seen: Vec<String> = Vec::new();
        std::mem::swap(&mut seen, &mut self.seen);
        seen.push(c.clone());
        assert(seen@.map_values(|s: String| s@) =~= after);
        self.seen = seen;
        assert(self.followed() =~= after);
        PageStep::Next(c)
    }
}

// ---------------------------------------------------------------------------
// Rate limiting.

/// How many times a request answered 429 is retried.
pub const MAX_429_RETRIES: u32 = 4;

/// The longest exponential backoff, in milliseconds.
pub const MAX_BACKOFF_MS: u64 = 10000;

/// The least time between two requests, in milliseconds (under three
/// requests per second).
pub const REQUEST_INTERVAL_MS: u64 = 400;

/// A wait before retrying a request.
#[derive(Debug, Clone, Copy, PartialEq, Eq)]
pub struct Delay {
    pub secs: u64,
    pub nanos: u32,
}

/// Whether a response with this status is retried: only 429, and only
/// while retries remain.
pub fn should_retry(status: u16, retry: u32) -> (r: bool)
    ensures
        r == (status == 429 && retry < MAX_429_RETRIES),
{
    status == 429 && retry < MAX_429_RETRIES
}

/// What the client does with one HTTP response.
#[derive(Debug, Clone, Copy, PartialEq, Eq, Structural)]
pub enum ResponseStep {
    /// Rate limited with retries left: wait, then send the request again.
    Retry,
    /// Any other status outside 2xx: fail with Gong's error text.
    Fail,
    /// Success: parse the body.
    Parse,
}

/// The step after a response with this status to the request's retry
/// number `retry` (from zero).
pub fn after_response(status: u16, retry: u32) -> (r: ResponseStep)
    ensures
        r == (if status == 429 && retry < MAX_429_RETRIES {
            ResponseStep::Retry
        } else if !(200 <= status <= 299) {
            ResponseStep::Fail
        } else {
            ResponseStep::Parse
        }),
{
    if should_retry(status, retry) {
        ResponseStep::Retry
    } else if !(200 <= status && status <= 299) {
        ResponseStep::Fail
    } else {
        ResponseStep::Parse
    }
}

/// The exponential backoff before retry number `retry` (from zero): 250 ms
/// doubling per retry, capped at ten seconds.
pub open spec fn backoff_ms(retry: nat) -> nat {
    let d = 250 * pow2(retry);
    if d < MAX_BACKOFF_MS { d } else { MAX_BACKOFF_MS as nat }
}

/// A whole number of milliseconds as a delay.
pub open spec fn ms_delay(ms: nat) -> Delay {
    Delay { secs: (ms / 1000) as u64, nanos: ((ms % 1000) * 1000000) as u32 }
}

/// The backoff never shrinks from one retry to the next and never exceeds
/// ten seconds.
pub proof fn lemma_backoff_bounded(r: nat, s: nat)
    requires
        r <= s,
    ensures
        backoff_ms(r) <= backoff_ms(s),
        backoff_ms(s) <= MAX_BACKOFF_MS,
{
    if r < s {
        lemma_pow2_strictly_increases(r, s);
    }
}

/// The exponential backoff before retry number `retry`.
pub fn backoff(retry: u32) -> (r: Delay)
    ensures
        r == ms_delay(backoff_ms(retry as nat)),
{
    let mut ms: u64 = 250;
    let mut k: u32 = 0;
    proof {
        lemma2_to64();
    }
    while k < retry && ms < MAX_BACKOFF_MS
        invariant
            k <= retry,
            ms == 250 * pow2(k as nat),
            ms < 2 * MAX_BACKOFF_MS,
        decreases retry - k,
    {
        proof {
            lemma_pow2_unfold((k + 1) as nat);
        }
        ms = ms * 2;
        k = k + 1;
    }
    if k < retry {
        proof {
            lemma_pow2_strictly_increases(k as nat, retry as nat);
        }
    }
    if ms > MAX_BACKOFF_MS {
        ms = MAX_BACKOFF_MS;
    }
    Delay { secs: ms / 1000, nanos: ((ms % 1000) * 1000000) as u32 }
}

/// The value of a string of ASCII digits.
pub open spec fn digits_value(s: Seq<char>) -> nat
    decreases s.len(),
{
    if s.len() == 0 {
        0
    } else {
        digits_value(s.drop_last()) * 10 + (s.last() as nat - '0' as nat) as nat
    }
}

/// Whether every character is an ASCII digit.
pub open spec fn all_digits(d: Seq<char>) -> bool {
    forall|i: int| 0 <= i < d.len() ==> is_digit(#[trigger] d[i])
}

/// The text after an optional leading `+`.
pub open spec fn unsigned_part(s: Seq<char>) -> Seq<char> {
    if s.len() > 0 && s[0] == '+' { s.drop_first() } else { s }
}

/// What `str::parse::<u64>` accepts: an optional `+` and then one or more
/// ASCII digits whose value fits in 64 bits.
pub open spec fn spec_parse_u64(s: Seq<char>) -> Option<u64> {
    let d = unsigned_part(s);
    if d.len() > 0 && all_digits(d) && digits_value(d) <= u64::MAX {
        Some(digits_value(d) as u64)
    } else {
        None
    }
}

/// Parses a decimal `u64` as `str::parse::<u64>` does.
#[verifier::loop_isolation(false)]
pub fn parse_u64(s: &str) -> (r: Option<u64>)
    ensures
        r == spec_parse_u64(s@),
{
    let chars = chars_of(s);
    let start: usize = if chars.len() > 0 && chars[0] == '+' { 1 } else { 0 };
    let ghost d = unsigned_part(s@);
    assert(d =~= chars@.skip(start as int));
    if start == chars.len() {
        assert(d.len() == 0);
        return None;
    }
    let mut value: u64 = 0;
    let mut overflow = false;
    let mut i: usize = start;
    while i < chars.len()
        invariant
            start <= i <= chars.len(),
            d =~= chars@.skip(start as int),
            forall|j: int| start <= j < i ==> is_digit(#[trigger] chars@[j]),
            overflow ==> digits_value(chars@.subrange(start as int, i as int)) > u64::MAX,
            !overflow ==> value == digits_value(chars@.subrange(start as int, i as int)),
        decreases chars.len() - i,
    {
        let c = chars[i];
        if !('0' <= c && c <= '9') {
            assert(!is_digit(d[i - start]));
            return None;
        }
        let digit = (c as u32 - '0' as u32) as u64;
        let ghost prefix = chars@.subrange(start as int, i as int);
        let ghost next = chars@.subrange(start as int, i as int + 1);
        assert(next.drop_last() =~= prefix);
        assert(next.last() == c);
        assert(digits_value(next) == digits_value(prefix) * 10 + digit);
        if !overflow {
            match value.checked_mul(10) {
                Some(m) => match m.checked_add(digit) {
                    Some(v) => {
                        value = v;
                    },
                    None => {
                        overflow = true;
                    },
                },
                None => {
                    overflow = true;
                },
            }
        }
        i = i + 1;
    }
    assert(chars@.subrange(start as int, chars.len() as int) =~= d);
    assert forall|j: int| 0 <= j < d.len() implies is_digit(#[trigger] d[j]) by {
        assert(d[j] == chars@[start + j]);
    }
    if overflow {
        None
    } else {
        Some(value)
    }
}

/// An instant as seconds and nanoseconds since the Unix epoch.
#[derive(Debug, Clone, Copy, PartialEq, Eq)]
pub struct EpochTime {
    pub secs: i64,
    pub nanos: u32,
}

/// The result of `chrono::DateTime::parse_from_rfc2822`.
pub uninterp spec fn spec_parse_http_date(text: Seq<char>) -> Option<EpochTime>;

/// `chrono::DateTime::parse_from_rfc2822`: the instant an HTTP date names.
/// The contract names the result; which texts parse is not stated.
#[verifier::external_body]
fn parse_http_date(text: &str) -> (r: Option<EpochTime>)
    ensures
        r == spec_parse_http_date(text@),
{
    match chrono::DateTime::parse_from_rfc2822(text) {
        Ok(t) => Some(EpochTime { secs: t.timestamp(), nanos: t.timestamp_subsec_nanos() }),
        Err(_) => None,
    }
}

/// `(at - chrono::Utc::now()).to_std()`: the time left until `at`, `None`
/// when `at` has passed or lies outside chrono's range.  It depends on the
/// clock, so of the result only that its nanoseconds lie below one second
/// is stated.
#[verifier::external_body]
fn time_until(at: EpochTime) -> (r: Option<Delay>)
    ensures
        r matches Some(d) ==> d.nanos < 1000000000,
{
    let at = match chrono::DateTime::from_timestamp(at.secs, at.nanos) {
        Some(t) => t,
        None => return None,
    };
    match (at - chrono::Utc::now()).to_std() {
        Ok(d) => Some(Delay { secs: d.as_secs(), nanos: d.subsec_nanos() }),
        Err(_) => None,
    }
}

/// The view of an optional header value.
pub open spec fn opt_text(s: Option<&str>) -> Option<Seq<char>> {
    match s {
        Some(v) => Some(v@),
        None => None,
    }
}

/// The wait before retrying a rate-limited request: the `Retry-After`
/// header's whole number of seconds; else, when the header is an HTTP date
/// that has not passed, the time until it (`until_date`); else the
/// exponential backoff.
pub open spec fn spec_retry_delay(
    retry_after: Option<Seq<char>>,
    until_date: Option<Delay>,
    retry: nat,
) -> Delay {
    match retry_after {
        Some(h) => match spec_parse_u64(h) {
            Some(s) => Delay { secs: s, nanos: 0 },
            None => match until_date {
                Some(d) => d,
                None => ms_delay(backoff_ms(retry)),
            },
        },
        None => ms_delay(backoff_ms(retry)),
    }
}

/// Chooses the wait before retry number `retry` from the `Retry-After`
/// header and the time until the HTTP date it names, if any.
pub fn choose_retry_delay(retry_after: Option<&str>, until_date: Option<Delay>, retry: u32) -> (r:
    Delay)
    ensures
        r == spec_retry_delay(opt_text(retry_after), until_date, retry as nat),
{
    if let Some(h) = retry_after {
        if let Some(s) = parse_u64(h) {
            return Delay { secs: s, nanos: 0 };
        }
        if let Some(d) = until_date {
            return d;
        }
    }
    backoff(retry)
}

/// The wait before retry number `retry` of a request answered 429 whose
/// `Retry-After` header (when it is visible ASCII) is `retry_after`.  When
/// the header is an HTTP date the wait comes from the clock; whatever it
/// reads, the result is then either that wait or the backoff.
pub fn retry_delay(retry_after: Option<&str>, retry: u32) -> (r: Delay)
    ensures
        match retry_after {
            None => r == ms_delay(backoff_ms(retry as nat)),
            Some(h) => match spec_parse_u64(h@) {
                Some(s) => r == (Delay { secs: s, nanos: 0 }),
                None => if spec_parse_http_date(h@) is None {
                    r == ms_delay(backoff_ms(retry as nat))
                } else {
                    r == ms_delay(backoff_ms(retry as nat)) || r.nanos < 1000000000
                },
            },
        },
{
    let until = match retry_after {
        Some(h) => match parse_u64(h) {
            Some(_) => None,
            None => match parse_http_date(h) {
                Some(at) => time_until(at),
                None => None,
            },
        },
        None => None,
    };
    choose_retry_delay(retry_after, until, retry)
}

// ---------------------------------------------------------------------------
// Picking the answer out of a response.

/// The first Call whose id is `id`.
pub open spec fn first_call_with_id(calls: Seq<ExtensiveCall>, id: Seq<char>) -> Option<
    ExtensiveCall,
>
    decreases calls.len(),
{
    if calls.len() == 0 {
        None
    } else if calls[0].metadata.id@ == id {
        Some(calls[0])
    } else {
        first_call_with_id(calls.drop_first(), id)
    }
}

/// The first Transcript whose Call id is `id`.
pub open spec fn first_transcript_for(transcripts: Seq<CallTranscript>, id: Seq<char>) -> Option<
    CallTranscript,
>
    decreases transcripts.len(),
{
    if transcripts.len() == 0 {
        None
    } else if transcripts[0].call_id@ == id {
        Some(transcripts[0])
    } else {
        first_transcript_for(transcripts.drop_first(), id)
    }
}

/// The Call a single-Call request asked for: the first one in the response
/// with exactly that id (`None` is reported as Call not found).
#[verifier::loop_isolation(false)]
pub fn find_call(calls: Vec<ExtensiveCall>, call_id: &str) -> (r: Option<ExtensiveCall>)
    ensures
        r == first_call_with_id(calls@, call_id@),
{
    let mut calls = calls;
    let ghost all = calls@;
    let mut i: usize = 0;
    assert(all.skip(0) =~= all);
    while i < calls.len()
        invariant
            calls@ == all,
            i <= calls.len(),
            first_call_with_id(all, call_id@) == first_call_with_id(all.skip(i as int), call_id@),
        decreases calls.len() - i,
    {
        assert(all.skip(i as int)[0] == all[i as int]);
        assert(all.skip(i as int).drop_first() =~= all.skip(i as int + 1));
        if str_eq(calls[i].metadata.id.as_str(), call_id) {
            return Some(calls.remove(i));
        }
        i = i + 1;
    }
    None
}

/// The Transcript a single-Call request asked for: the first one in the
/// response for exactly that Call (`None` is reported as not ready yet).
#[verifier::loop_isolation(false)]
pub fn find_transcript(transcripts: Vec<CallTranscript>, call_id: &str) -> (r: Option<
    CallTranscript,
>)
    ensures
        r == first_transcript_for(transcripts@, call_id@),
{
    let mut transcripts = transcripts;
    let ghost all = transcripts@;
    let mut i: usize = 0;
    assert(all.skip(0) =~= all);
    while i < transcripts.len()
        invariant
            transcripts@ == all,
            i <= transcripts.len(),
            first_transcript_for(all, call_id@) == first_transcript_for(
                all.skip(i as int),
                call_id@,
            ),
        decreases transcripts.len() - i,
    {
        assert(all.skip(i as int)[0] == all[i as int]);
        assert(all.skip(i as int).drop_first() =~= all.skip(i as int + 1));
        if str_eq(transcripts[i].call_id.as_str(), call_id) {
            return Some(transcripts.remove(i));
        }
        i = i + 1;
    }
    None
}

// ---------------------------------------------------------------------------
// Error text.

/// One entry of the `errors` array of a Gong error body: the entry itself
/// when it is a JSON string, its `message` member when that is a string, and
/// its compact JSON text.
#[derive(Debug, Clone)]
pub struct ErrorEntry {
    pub text: Option<String>,
    pub message: Option<String>,
    pub json: String,
}

/// An error entry as plain text values.
pub open spec fn entry_view(e: ErrorEntry) -> (Option<Seq<char>>, Option<Seq<char>>, Seq<char>) {
    (opt_view(e.text), opt_view(e.message), e.json@)
}

/// The entries of an error body as plain text values.
pub open spec fn entries_view(es: Option<Vec<ErrorEntry>>) -> Option<
    Seq<(Option<Seq<char>>, Option<Seq<char>>, Seq<char>)>,
> {
    match es {
        Some(v) => Some(v@.map_values(|e: ErrorEntry| entry_view(e))),
        None => None,
    }
}

/// One entry of an `errors` array as plain text values: the entry as a
/// string (`Value::as_str`), its string `message` member, and its compact
/// JSON text.
pub open spec fn entry_of(x: JsonNodeView) -> (Option<Seq<char>>, Option<Seq<char>>, Seq<char>) {
    (
        as_str(x),
        match member(x, "message"@) {
            Some(m) => as_str(m),
            None => None,
        },
        x.compact,
    )
}

/// The entries of a document's `errors` array, `None` when the document has
/// no `errors` member that is an array.
pub open spec fn doc_error_entries(doc: JsonNodeView) -> Option<
    Seq<(Option<Seq<char>>, Option<Seq<char>>, Seq<char>)>,
> {
    match member(doc, "errors"@) {
        Some(e) => match e.json {
            JsonView::Array(items) => Some(items.map_values(|x: JsonNodeView| entry_of(x))),
            _ => None,
        },
        None => None,
    }
}

/// The entries of an error body: those of the document `serde_json` reads
/// from it, `None` when it is not JSON.
pub open spec fn spec_error_entries(body: Seq<char>) -> Option<
    Seq<(Option<Seq<char>>, Option<Seq<char>>, Seq<char>)>,
> {
    match spec_parse_json(body) {
        Some(doc) => doc_error_entries(doc),
        None => None,
    }
}

/// The string of a string node.
fn node_str(x: &JsonNode) -> (r: Option<String>)
    ensures
        opt_view(r) == as_str(x.node_view()),
{
    match &x.json {
        Json::Str(s) => Some(s.clone()),
        _ => None,
    }
}

/// Reads the `errors` array of a JSON document: each entry as a string, as
/// its string `message` member, and as compact JSON.
pub fn error_entries(doc: &JsonNode) -> (r: Option<Vec<ErrorEntry>>)
    ensures
        entries_view(r) == doc_error_entries(doc.node_view()),
{
    let errors = match get_member(doc, "errors") {
        Some(e) => e,
        None => return None,
    };
    proof {
        reveal_strlit("errors");
    }
    let items = match &errors.json {
        Json::Array(items) => items,
        _ => return None,
    };
    let ghost iv = errors.node_view().json->Array_0;
    assert(iv.len() == items@.len());
    let mut out: Vec<ErrorEntry> = Vec::new();
    let mut i: usize = 0;
    while i < items.len()
        invariant
            i <= items.len(),
            iv.len() == items@.len(),
            forall|k: int| 0 <= k < items@.len() ==> (#[trigger] iv[k]) == items@[k].node_view(),
            out@.len() == i,
            forall|k: int| 0 <= k < i ==> entry_view(#[trigger] out@[k]) == entry_of(iv[k]),
        decreases items.len() - i,
    {
        let x = &items[i];
        let text = node_str(x);
        let message = match get_member(x, "message") {
            Some(m) => node_str(m),
            None => None,
        };
        proof {
            reveal_strlit("message");
        }
        out.push(ErrorEntry { text, message, json: x.compact.clone() });
        i = i + 1;
    }
    assert(entries_view(Some(out)).unwrap() =~= iv.map_values(|x: JsonNodeView| entry_of(x)));
    Some(out)
}

/// The text one error entry contributes: the string itself, else its
/// `message`, else its JSON.
pub open spec fn entry_text(e: (Option<Seq<char>>, Option<Seq<char>>, Seq<char>)) -> Seq<char> {
    match e.0 {
        Some(t) => t,
        None => match e.1 {
            Some(m) => m,
            None => e.2,
        },
    }
}

/// Texts joined with `sep` between neighbours.
pub open spec fn join(parts: Seq<Seq<char>>, sep: Seq<char>) -> Seq<char>
    decreases parts.len(),
{
    if parts.len() == 0 {
        Seq::empty()
    } else if parts.len() == 1 {
        parts[0]
    } else {
        join(parts.drop_last(), sep) + sep + parts.last()
    }
}

/// The message a failed request reports: the texts of the `errors` entries
/// joined with `"; "`, or the trimmed body when it holds no such array.
pub open spec fn spec_error_message(
    body: Seq<char>,
    entries: Option<Seq<(Option<Seq<char>>, Option<Seq<char>>, Seq<char>)>>,
) -> Seq<char> {
    match entries {
        None => trim(body),
        Some(es) => join(
            es.map_values(|e: (Option<Seq<char>>, Option<Seq<char>>, Seq<char>)| entry_text(e)),
            "; "@,
        ),
    }
}

/// The message of a failed request from its body and the `errors` entries
/// read from it.
pub fn error_message_from(body: &str, entries: Option<Vec<ErrorEntry>>) -> (r: String)
    ensures
        r@ == spec_error_message(body@, entries_view(entries)),
{
    let es = match entries {
        None => return trim_str(body),
        Some(es) => es,
    };
    let ghost texts = es@.map_values(|e: ErrorEntry| entry_view(e)).map_values(
        |e: (Option<Seq<char>>, Option<Seq<char>>, Seq<char>)| entry_text(e),
    );
    let mut out = String::new();
    let mut i: usize = 0;
    while i < es.len()
        invariant
            i <= es.len(),
            texts.len() == es.len(),
            texts == es@.map_values(|e: ErrorEntry| entry_view(e)).map_values(
                |e: (Option<Seq<char>>, Option<Seq<char>>, Seq<char>)| entry_text(e),
            ),
            out@ == join(texts.take(i as int), "; "@),
        decreases es.len() - i,
    {
        let e = &es[i];
        let piece: &str = match &e.text {
            Some(t) => t.as_str(),
            None => match &e.message {
                Some(m) => m.as_str(),
                None => e.json.as_str(),
            },
        };
        assert(piece@ == texts[i as int]);
        assert(texts.take(i as int + 1).drop_last() =~= texts.take(i as int));
        if i > 0 {
            push_str(&mut out, "; ");
        } else {
            assert(out@ =~= Seq::<char>::empty());
        }
        push_str(&mut out, piece);
        assert(out@ =~= join(texts.take(i as int + 1), "; "@));
        i = i + 1;
    }
    assert(texts.take(es.len() as int) =~= texts);
    out
}

/// The message of a failed request: Gong's error
/// texts joined with `"; "`, else the trimmed body.
pub fn gong_error_message(body: &str) -> (r: String)
    ensures
        r@ == spec_error_message(body@, spec_error_entries(body@)),
{
    let entries = match parse_json(body) {
        Some(doc) => error_entries(&doc),
        None => None,
    };
    error_message_from(body, entries)
}

} // verus!

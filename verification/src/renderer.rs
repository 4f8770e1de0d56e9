//! The canonical Call File: a byte-deterministic Markdown rendering of one
//! Call merged with its Transcript.
use vstd::prelude::*;
use crate::api::{
    is_internal, opt_view, spec_account_name, spec_host_name, CallContent, CallTranscript,
    ExtensiveCall, OutlineSection, Party, TranscriptEntry,
};
use crate::dates::{
    date_text, hour_minute_text, parse_rfc3339, push_date, push_hour_minute, spec_parse_rfc3339,
    StartedAt,
};
use crate::text::{
    chars_of, collapse_ws, decimal, is_white, minutes_seconds, push_char, push_chars,
    push_decimal, push_minutes_seconds, push_str, push_yaml_escaped, str_eq, trim, trim_str,
    yaml_escape, collapse_whitespace, string_from_chars,
};

verus! {

/// The marker written wherever Spotlight content is not available yet.  A
/// Call File that contains it is healed by a later sync.
pub const PLACEHOLDER: &'static str = "_[Summary to be added]_";

/// A Call together with its Transcript.
#[derive(Debug, Clone)]
pub struct MergedCall {
    pub call: ExtensiveCall,
    pub transcript: CallTranscript,
}

/// A rendered Call File: its file name and its Markdown.
#[derive(Debug, Clone, PartialEq, Eq)]
pub struct RenderedCall {
    pub filename: String,
    pub markdown: String,
}

/// Why a Call could not be rendered.
#[derive(Debug, Clone, PartialEq, Eq)]
pub enum RenderError {
    /// The Call's `started` timestamp is not RFC 3339.
    InvalidStarted { call_id: String, started: String },
    /// The Transcript belongs to another Call.
    TranscriptMismatch { call_id: String, transcript_call_id: String },
}

/// The text that `{:?}` writes for a string: the string in double quotes,
/// with quotes, backslashes and unprintable characters escaped.
pub uninterp spec fn spec_debug_quoted(s: Seq<char>) -> Seq<char>;

/// A text that `{:?}` writes unchanged between its quotes: printable ASCII
/// with no `"` and no `\`.
pub open spec fn debug_plain(s: Seq<char>) -> bool {
    forall|i: int|
        0 <= i < s.len() ==> ' ' <= #[trigger] s[i] <= '~' && s[i] != '"' && s[i] != '\\'
}

/// `format!("{:?}", s)` on a string slice: the contract names the text and,
/// as `str`'s `Debug` escapes only quotes, backslashes and unprintable
/// characters, spells it out for plain printable ASCII.
#[verifier::external_body]
fn debug_quoted(s: &str) -> (r: String)
    ensures
        r@ == spec_debug_quoted(s@),
        debug_plain(s@) ==> r@ == seq!['"'] + s@ + seq!['"'],
{
    format!("{s:?}")
}

/// The message of a render error.
pub open spec fn render_error_text(e: RenderError) -> Seq<char> {
    match e {
        RenderError::InvalidStarted { call_id, started } => "Call "@ + call_id@
            + " has invalid started timestamp "@ + spec_debug_quoted(started@),
        RenderError::TranscriptMismatch { call_id, transcript_call_id } => "cannot merge Call "@
            + call_id@ + " with transcript for "@ + transcript_call_id@,
    }
}

impl RenderError {
    /// `Call <id> has invalid started timestamp "<started>"`, or
    /// `cannot merge Call <id> with transcript for <other id>`.
    pub fn message(&self) -> (r: String)
        ensures
            r@ == render_error_text(*self),
    {
        let mut out = String::new();
        match self {
            RenderError::InvalidStarted { call_id, started } => {
                push_str(&mut out, "Call ");
                push_str(&mut out, call_id.as_str());
                push_str(&mut out, " has invalid started timestamp ");
                let quoted = debug_quoted(started.as_str());
                push_str(&mut out, quoted.as_str());
            },
            RenderError::TranscriptMismatch { call_id, transcript_call_id } => {
                push_str(&mut out, "cannot merge Call ");
                push_str(&mut out, call_id.as_str());
                push_str(&mut out, " with transcript for ");
                push_str(&mut out, transcript_call_id.as_str());
            },
        }
        proof {
            reveal_strlit("Call ");
            reveal_strlit(" has invalid started timestamp ");
            reveal_strlit("cannot merge Call ");
            reveal_strlit(" with transcript for ");
        }
        out
    }
}

// ---------------------------------------------------------------------------
// Text order, as `str::cmp` compares (bytewise UTF-8, which is code-point
// order).

/// Three-way lexicographic comparison by code point: -1, 0 or 1.
pub open spec fn chars_order(a: Seq<char>, b: Seq<char>) -> int
    decreases a.len(),
{
    if a.len() == 0 {
        if b.len() == 0 { 0 } else { -1 }
    } else if b.len() == 0 {
        1
    } else if (a[0] as u32) < (b[0] as u32) {
        -1
    } else if (a[0] as u32) > (b[0] as u32) {
        1
    } else {
        chars_order(a.drop_first(), b.drop_first())
    }
}

/// `str::cmp` on two character sequences.
pub fn compare_chars(a: &Vec<char>, b: &Vec<char>) -> (r: i8)
    ensures
        r as int == chars_order(a@, b@),
{
    let mut i: usize = 0;
    assert(a@.skip(0) =~= a@);
    assert(b@.skip(0) =~= b@);
    while i < a.len() && i < b.len()
        invariant
            i <= a.len(),
            i <= b.len(),
            chars_order(a@, b@) == chars_order(a@.skip(i as int), b@.skip(i as int)),
        decreases a.len() - i,
    {
        let x = a[i];
        let y = b[i];
        assert(a@.skip(i as int)[0] == x);
        assert(b@.skip(i as int)[0] == y);
        if (x as u32) < (y as u32) {
            return -1;
        }
        if (x as u32) > (y as u32) {
            return 1;
        }
        assert(a@.skip(i as int).drop_first() =~= a@.skip(i as int + 1));
        assert(b@.skip(i as int).drop_first() =~= b@.skip(i as int + 1));
        i = i + 1;
    }
    if i < a.len() {
        assert(b@.skip(i as int).len() == 0);
        1
    } else if i < b.len() {
        assert(a@.skip(i as int).len() == 0);
        -1
    } else {
        assert(a@.skip(i as int).len() == 0);
        assert(b@.skip(i as int).len() == 0);
        0
    }
}

// ---------------------------------------------------------------------------
// Parties in the front matter.

/// The text of an optional string, empty when absent.
pub open spec fn or_empty(s: Option<String>) -> Seq<char> {
    match s {
        Some(v) => v@,
        None => Seq::empty(),
    }
}

/// Parties are ordered by name, then by email address, a missing value
/// sorting as the empty string.
pub open spec fn party_le(a: Party, b: Party) -> bool {
    let c = chars_order(or_empty(a.name), or_empty(b.name));
    c < 0 || (c == 0 && chars_order(or_empty(a.email_address), or_empty(b.email_address)) <= 0)
}

/// Inserts `p` into a sorted list after every Party that orders before or
/// with it.
pub open spec fn insert_party(sorted: Seq<Party>, p: Party) -> Seq<Party>
    decreases sorted.len(),
{
    if sorted.len() == 0 {
        seq![p]
    } else if party_le(sorted.last(), p) {
        sorted.push(p)
    } else {
        insert_party(sorted.drop_last(), p).push(sorted.last())
    }
}

/// The stable sort of a list of Parties by name, then email.
pub open spec fn sort_parties(parties: Seq<Party>) -> Seq<Party>
    decreases parties.len(),
{
    if parties.len() == 0 {
        Seq::empty()
    } else {
        insert_party(sort_parties(parties.drop_last()), parties.last())
    }
}

/// The Parties that are (or are not) Internal, in their original order.
pub open spec fn select_parties(parties: Seq<Party>, internal: bool) -> Seq<Party>
    decreases parties.len(),
{
    if parties.len() == 0 {
        Seq::empty()
    } else if is_internal(parties.last()) == internal {
        select_parties(parties.drop_last(), internal).push(parties.last())
    } else {
        select_parties(parties.drop_last(), internal)
    }
}

/// One `key: "value"` line with the given indentation.
#[verifier::opaque]
pub open spec fn field_line(indent: Seq<char>, key: Seq<char>, value: Seq<char>) -> Seq<char> {
    indent + key + ": \""@ + yaml_escape(value) + "\"\n"@
}

/// The present contact fields of a Party, in the order name, title, email.
pub open spec fn party_fields(p: Party) -> Seq<(Seq<char>, Seq<char>)> {
    let a = match p.name {
        Some(v) => seq![("name"@, v@)],
        None => Seq::empty(),
    };
    let b = match p.title {
        Some(v) => seq![("title"@, v@)],
        None => Seq::empty(),
    };
    let c = match p.email_address {
        Some(v) => seq![("email"@, v@)],
        None => Seq::empty(),
    };
    a + b + c
}

/// The continuation lines of a Party's entry.
pub open spec fn continuation_lines(fields: Seq<(Seq<char>, Seq<char>)>) -> Seq<char>
    decreases fields.len(),
{
    if fields.len() == 0 {
        Seq::empty()
    } else {
        continuation_lines(fields.drop_last()) + field_line(
            "    "@,
            fields.last().0,
            fields.last().1,
        )
    }
}

/// One Party's list entry: `  - {}` when it has no contact field, otherwise
/// the first field after the dash and the others indented below it.
pub open spec fn party_entry(p: Party) -> Seq<char> {
    let fields = party_fields(p);
    if fields.len() == 0 {
        "  - {}\n"@
    } else {
        field_line("  - "@, fields[0].0, fields[0].1) + continuation_lines(fields.drop_first())
    }
}

/// The entries of a list of Parties.
pub open spec fn party_entries(parties: Seq<Party>) -> Seq<char>
    decreases parties.len(),
{
    if parties.len() == 0 {
        Seq::empty()
    } else {
        party_entries(parties.drop_last()) + party_entry(parties.last())
    }
}

/// A YAML list of Parties under `key`; `key: []` when there are none.
pub open spec fn party_list(key: Seq<char>, parties: Seq<Party>) -> Seq<char> {
    if parties.len() == 0 {
        key + ": []\n"@
    } else {
        key + ":\n"@ + party_entries(parties)
    }
}

/// A copy of an optional string.
pub fn clone_opt_string(s: &Option<String>) -> (r: Option<String>)
    ensures
        r == *s,
{
    match s {
        Some(v) => Some(v.clone()),
        None => None,
    }
}

/// A copy of a Party.
pub fn clone_party(p: &Party) -> (r: Party)
    ensures
        r == *p,
{
    Party {
        id: clone_opt_string(&p.id),
        name: clone_opt_string(&p.name),
        email_address: clone_opt_string(&p.email_address),
        title: clone_opt_string(&p.title),
        affiliation: p.affiliation.clone(),
        speaker_id: clone_opt_string(&p.speaker_id),
        user_id: clone_opt_string(&p.user_id),
    }
}

/// The characters of an optional string, none when absent.
fn opt_chars(s: &Option<String>) -> (r: Vec<char>)
    ensures
        r@ == or_empty(*s),
{
    match s {
        Some(v) => chars_of(v.as_str()),
        None => Vec::new(),
    }
}

/// Whether `a` orders before or with `b`.
fn party_le_exec(a: &Party, b: &Party) -> (r: bool)
    ensures
        r == party_le(*a, *b),
{
    let c = compare_chars(&opt_chars(&a.name), &opt_chars(&b.name));
    if c < 0 {
        true
    } else if c > 0 {
        false
    } else {
        compare_chars(&opt_chars(&a.email_address), &opt_chars(&b.email_address)) <= 0
    }
}

proof fn lemma_insert_party_at(sorted: Seq<Party>, p: Party, j: int)
    requires
        0 <= j <= sorted.len(),
        forall|k: int| j <= k < sorted.len() ==> !party_le(#[trigger] sorted[k], p),
        j == 0 || party_le(sorted[j - 1], p),
    ensures
        insert_party(sorted, p) == sorted.take(j).push(p) + sorted.skip(j),
    decreases sorted.len(),
{
    if sorted.len() == 0 {
        assert(sorted.take(j).push(p) + sorted.skip(j) =~= seq![p]);
    } else if j == sorted.len() {
        assert(sorted.take(j).push(p) + sorted.skip(j) =~= sorted.push(p));
    } else {
        let d = sorted.drop_last();
        assert(!party_le(sorted.last(), p));
        assert forall|k: int| j <= k < d.len() implies !party_le(#[trigger] d[k], p) by {
            assert(d[k] == sorted[k]);
        }
        if j > 0 {
            assert(d[j - 1] == sorted[j - 1]);
        }
        lemma_insert_party_at(d, p, j);
        assert(d.take(j).push(p) + d.skip(j) + seq![sorted.last()] =~= sorted.take(j).push(p)
            + sorted.skip(j));
    }
}

/// Sorts Parties by name, then email address, keeping the original order of
/// Parties that compare equal.
pub fn sort_party_list(parties: &Vec<Party>) -> (r: Vec<Party>)
    ensures
        r@ == sort_parties(parties@),
{
    let mut sorted: Vec<Party> = Vec::new();
    let mut i: usize = 0;
    while i < parties.len()
        invariant
            i <= parties.len(),
            sorted@ == sort_parties(parties@.take(i as int)),
        decreases parties.len() - i,
    {
        let p = clone_party(&parties[i]);
        let mut j: usize = sorted.len();
        while j > 0 && !party_le_exec(&sorted[j - 1], &p)
            invariant
                j <= sorted.len(),
                forall|k: int| j <= k < sorted.len() ==> !party_le(#[trigger] sorted@[k], p),
            decreases j,
        {
            j = j - 1;
        }
        proof {
            lemma_insert_party_at(sorted@, p, j as int);
            assert(parties@.take(i as int + 1).drop_last() =~= parties@.take(i as int));
        }
        sorted.insert(j, p);
        assert(sorted@ =~= insert_party(sort_parties(parties@.take(i as int)), parties@[i as int]));
        i = i + 1;
    }
    assert(parties@.take(parties.len() as int) =~= parties@);
    sorted
}

/// The Parties that are (or are not) Internal, in their original order.
pub fn select_party_list(parties: &Vec<Party>, internal: bool) -> (r: Vec<Party>)
    ensures
        r@ == select_parties(parties@, internal),
{
    let mut out: Vec<Party> = Vec::new();
    let mut i: usize = 0;
    while i < parties.len()
        invariant
            i <= parties.len(),
            out@ == select_parties(parties@.take(i as int), internal),
        decreases parties.len() - i,
    {
        assert(parties@.take(i as int + 1).drop_last() =~= parties@.take(i as int));
        let is_int = str_eq(parties[i].affiliation.as_str(), "Internal");
        if is_int == internal {
            out.push(clone_party(&parties[i]));
        }
        i = i + 1;
    }
    assert(parties@.take(parties.len() as int) =~= parties@);
    out
}

/// Appends one `key: "value"` line.
fn push_field_line(out: &mut String, indent: &str, key: &str, value: &str)
    ensures
        final(out)@ == old(out)@ + field_line(indent@, key@, value@),
{
    let ghost start = out@;
    push_str(out, indent);
    push_str(out, key);
    push_str(out, ": \"");
    push_yaml_escaped(out, value);
    push_str(out, "\"\n");
    reveal(field_line);
    assert(out@ =~= start + field_line(indent@, key@, value@));
}

/// Appends one `key: "value"` front-matter line.
pub fn yaml_string(output: &mut String, key: &str, value: &str)
    ensures
        final(output)@ == old(output)@ + field_line(Seq::empty(), key@, value@),
{
    push_field_line(output, "", key, value);
    proof {
        reveal_strlit("");
    }
    assert(""@ =~= Seq::<char>::empty());
}

/// Appends one Party's list entry.
fn push_party_entry(out: &mut String, p: &Party)
    ensures
        final(out)@ == old(out)@ + party_entry(*p),
{
    let ghost start = out@;
    let ghost fields = party_fields(*p);
    let mut count: usize = 0;
    let mut keys: Vec<&str> = Vec::new();
    let mut values: Vec<&str> = Vec::new();
    if let Some(v) = &p.name {
        keys.push("name");
        values.push(v.as_str());
    }
    if let Some(v) = &p.title {
        keys.push("title");
        values.push(v.as_str());
    }
    if let Some(v) = &p.email_address {
        keys.push("email");
        values.push(v.as_str());
    }
    assert(keys.len() == values.len() && keys.len() == fields.len());
    assert(forall|k: int|
        0 <= k < fields.len() ==> fields[k] == (#[trigger] keys@[k]@, values@[k]@));
    if keys.len() == 0 {
        push_str(out, "  - {}\n");
        return;
    }
    push_field_line(out, "  - ", keys[0], values[0]);
    let ghost rest = fields.drop_first();
    let mut i: usize = 1;
    while i < keys.len()
        invariant
            keys.len() == values.len(),
            keys.len() == fields.len(),
            rest == fields.drop_first(),
            1 <= i <= keys.len(),
            forall|k: int|
                0 <= k < fields.len() ==> fields[k] == (#[trigger] keys@[k]@, values@[k]@),
            out@ == start + field_line("  - "@, fields[0].0, fields[0].1) + continuation_lines(
                rest.take(i as int - 1),
            ),
        decreases keys.len() - i,
    {
        assert(rest.take(i as int).drop_last() =~= rest.take(i as int - 1));
        assert(rest.take(i as int).last() == fields[i as int]);
        push_field_line(out, "    ", keys[i], values[i]);
        i = i + 1;
    }
    assert(rest.take(keys.len() as int - 1) =~= rest);
}

/// Appends a YAML list of Parties under `key`.
fn yaml_parties(output: &mut String, key: &str, parties: &Vec<Party>)
    ensures
        final(output)@ == old(output)@ + party_list(key@, parties@),
{
    let ghost start = output@;
    if parties.len() == 0 {
        push_str(output, key);
        push_str(output, ": []\n");
        assert(output@ =~= start + party_list(key@, parties@));
        return;
    }
    push_str(output, key);
    push_str(output, ":\n");
    let ghost head = output@;
    let mut i: usize = 0;
    while i < parties.len()
        invariant
            i <= parties.len(),
            output@ == head + party_entries(parties@.take(i as int)),
        decreases parties.len() - i,
    {
        assert(parties@.take(i as int + 1).drop_last() =~= parties@.take(i as int));
        push_party_entry(output, &parties[i]);
        i = i + 1;
    }
    assert(parties@.take(parties.len() as int) =~= parties@);
    assert(output@ =~= start + party_list(key@, parties@));
}

// ---------------------------------------------------------------------------
// File names.

/// The characters that file systems refuse become `-`.
pub open spec fn filename_safe_char(c: char) -> char {
    if c == '<' || c == '>' || c == ':' || c == '"' || c == '/' || c == '\\' || c == '|' || c
        == '?' || c == '*' {
        '-'
    } else {
        c
    }
}

/// A Call title made safe for a file name: each of `<>:"/\|?*` becomes `-`,
/// then whitespace runs collapse to single spaces and the ends are trimmed.
pub open spec fn spec_sanitize_title(title: Seq<char>) -> Seq<char> {
    collapse_ws(title.map_values(|c: char| filename_safe_char(c)))
}

/// A character that a file name must not hold.
pub open spec fn hostile_char(c: char) -> bool {
    c == '<' || c == '>' || c == ':' || c == '"' || c == '/' || c == '\\' || c == '|' || c == '?'
        || c == '*'
}

/// A tidy file-name title: no hostile character, no whitespace but single
/// spaces between words, and no space at either end.
pub open spec fn clean_title(t: Seq<char>) -> bool {
    &&& forall|i: int| 0 <= i < t.len() ==> !hostile_char(#[trigger] t[i])
    &&& forall|i: int| 0 <= i < t.len() && is_white(#[trigger] t[i]) ==> t[i] == ' '
    &&& forall|i: int| 0 <= i < t.len() - 1 ==> !(#[trigger] t[i] == ' ' && t[i + 1] == ' ')
    &&& t.len() > 0 ==> t[0] != ' ' && t.last() != ' '
}

/// Collapsing the whitespace of a text without hostile characters gives a
/// clean title.
proof fn lemma_collapse_clean(s: Seq<char>)
    requires
        forall|i: int| 0 <= i < s.len() ==> !hostile_char(#[trigger] s[i]),
    ensures
        clean_title(collapse_ws(s)),
    decreases s.len(),
{
    if s.len() > 0 {
        let prefix = s.drop_last();
        let c = s.last();
        assert(forall|i: int| 0 <= i < prefix.len() ==> !hostile_char(#[trigger] prefix[i])) by {
            assert forall|i: int| 0 <= i < prefix.len() implies !hostile_char(#[trigger] prefix[i]) by {
                assert(prefix[i] == s[i]);
            }
        }
        assert(!hostile_char(c)) by {
            assert(s[s.len() - 1] == c);
        }
        lemma_collapse_clean(prefix);
        let p = collapse_ws(prefix);
        if is_white(c) {
        } else if prefix.len() > 0 && is_white(prefix.last()) && p.len() > 0 {
            let r = p.push(' ').push(c);
            assert(r =~= collapse_ws(s));
            assert(is_white(' '));
            assert(forall|i: int| 0 <= i < p.len() ==> r[i] == p[i]);
            assert(r[p.len() as int] == ' ');
            assert(r[p.len() as int + 1] == c);
            assert(p.last() == p[p.len() - 1]);
            assert(clean_title(r));
        } else {
            let r = p.push(c);
            assert(r =~= collapse_ws(s));
            assert(forall|i: int| 0 <= i < p.len() ==> r[i] == p[i]);
            assert(r[p.len() as int] == c);
            if p.len() > 0 {
                assert(p.last() == p[p.len() - 1]);
            }
            assert(c != ' ');
            assert(clean_title(r));
        }
    }
}

/// A sanitized title is safe in a file name and tidy: it holds none of
/// `<>:"/\|?*`, no whitespace but single spaces between words, and no space
/// at either end.
pub proof fn lemma_sanitized_title_is_clean(title: Seq<char>)
    ensures
        clean_title(spec_sanitize_title(title)),
{
    let s = title.map_values(|c: char| filename_safe_char(c));
    assert forall|i: int| 0 <= i < s.len() implies !hostile_char(#[trigger] s[i]) by {
        assert(s[i] == filename_safe_char(title[i]));
    }
    lemma_collapse_clean(s);
}

/// A text whose only whitespace is single spaces and which does not start
/// with one: collapsing it at most drops one trailing space.
proof fn lemma_collapse_tidy(t: Seq<char>)
    requires
        forall|i: int| 0 <= i < t.len() && is_white(#[trigger] t[i]) ==> t[i] == ' ',
        forall|i: int| 0 <= i < t.len() - 1 ==> !(#[trigger] t[i] == ' ' && t[i + 1] == ' '),
        t.len() > 0 ==> t[0] != ' ',
    ensures
        collapse_ws(t) == (if t.len() > 0 && t.last() == ' ' { t.drop_last() } else { t }),
    decreases t.len(),
{
    if t.len() > 0 {
        let prefix = t.drop_last();
        let c = t.last();
        assert forall|i: int| 0 <= i < prefix.len() && is_white(#[trigger] prefix[i]) implies prefix[i]
            == ' ' by {
            assert(prefix[i] == t[i]);
        }
        assert forall|i: int| 0 <= i < prefix.len() - 1 implies !(#[trigger] prefix[i] == ' '
            && prefix[i + 1] == ' ') by {
            assert(prefix[i] == t[i] && prefix[i + 1] == t[i + 1]);
        }
        if prefix.len() > 0 {
            assert(prefix[0] == t[0]);
        }
        lemma_collapse_tidy(prefix);
        assert(c == t[t.len() - 1]);
        if prefix.len() > 0 {
            assert(prefix.last() == t[t.len() - 2]);
        }
        if is_white(c) {
            assert(c == ' ');
            assert(prefix.len() > 0);
            assert(!(t[t.len() - 2] == ' ' && t[t.len() - 1] == ' '));
            assert(collapse_ws(t) == collapse_ws(prefix));
        } else if prefix.len() > 0 && is_white(prefix.last()) {
            assert(prefix.last() == ' ');
            assert(prefix.len() >= 2);
            assert(collapse_ws(prefix) =~= prefix.drop_last());
            assert(collapse_ws(prefix).len() > 0);
            assert(collapse_ws(t) == collapse_ws(prefix).push(' ').push(c));
            assert(prefix.drop_last().push(' ').push(c) =~= t);
        } else {
            assert(c != ' ');
            assert(collapse_ws(t) == collapse_ws(prefix).push(c));
            assert(prefix.push(c) =~= t);
        }
    }
}

/// Sanitizing is idempotent: a sanitized title is its own sanitized form.
pub proof fn lemma_sanitize_title_idempotent(title: Seq<char>)
    ensures
        spec_sanitize_title(spec_sanitize_title(title)) == spec_sanitize_title(title),
{
    let t = spec_sanitize_title(title);
    lemma_sanitized_title_is_clean(title);
    let m = t.map_values(|c: char| filename_safe_char(c));
    assert forall|i: int| 0 <= i < t.len() implies m[i] == t[i] by {
        assert(!hostile_char(t[i]));
    }
    assert(m =~= t);
    lemma_collapse_tidy(t);
}

/// `YYYY-MM-DD - <sanitized title>.md`.
pub open spec fn spec_canonical_filename(call: ExtensiveCall, t: StartedAt) -> Seq<char> {
    date_text(t.date) + " - "@ + spec_sanitize_title(call.metadata.title@) + ".md"@
}

/// Makes a Call title safe for a file name.
pub fn sanitize_filename_title(title: &str) -> (r: String)
    ensures
        r@ == spec_sanitize_title(title@),
{
    let chars = chars_of(title);
    let mut replaced: Vec<char> = Vec::new();
    let mut i: usize = 0;
    while i < chars.len()
        invariant
            chars@ == title@,
            i <= chars.len(),
            replaced@ == chars@.take(i as int).map_values(|c: char| filename_safe_char(c)),
        decreases chars.len() - i,
    {
        let c = chars[i];
        let d = if c == '<' || c == '>' || c == ':' || c == '"' || c == '/' || c == '\\' || c
            == '|' || c == '?' || c == '*' {
            '-'
        } else {
            c
        };
        replaced.push(d);
        assert(chars@.take(i as int + 1).map_values(|c: char| filename_safe_char(c))
            =~= chars@.take(i as int).map_values(|c: char| filename_safe_char(c)).push(d));
        i = i + 1;
    }
    assert(chars@.take(chars.len() as int) =~= chars@);
    let collapsed = collapse_whitespace(&replaced);
    string_from_chars(&collapsed)
}

/// The canonical file name of a Call: the local date of its start, then its
/// sanitized title; an error when `started` is not RFC 3339.
pub fn canonical_filename(call: &ExtensiveCall) -> (r: Result<String, RenderError>)
    ensures
        match r {
            Ok(name) => spec_parse_rfc3339(call.metadata.started@) matches Some(t) && name@
                == spec_canonical_filename(*call, t),
            Err(e) => spec_parse_rfc3339(call.metadata.started@) is None && e
                == RenderError::InvalidStarted {
                call_id: call.metadata.id,
                started: call.metadata.started,
            },
        },
{
    match parse_rfc3339(call.metadata.started.as_str()) {
        None => Err(
            RenderError::InvalidStarted {
                call_id: call.metadata.id.clone(),
                started: call.metadata.started.clone(),
            },
        ),
        Some(t) => Ok(filename_for(call, t)),
    }
}

/// The canonical file name of a Call whose start has been parsed.
pub fn filename_for(call: &ExtensiveCall, t: StartedAt) -> (r: String)
    requires
        0 <= t.date.year <= 9999,
        t.date.month < 100,
        t.date.day < 100,
    ensures
        r@ == spec_canonical_filename(*call, t),
{
    let mut name = String::new();
    push_date(&mut name, t.date);
    push_str(&mut name, " - ");
    let title = sanitize_filename_title(call.metadata.title.as_str());
    push_str(&mut name, title.as_str());
    push_str(&mut name, ".md");
    assert(name@ =~= spec_canonical_filename(*call, t));
    name
}

// ---------------------------------------------------------------------------
// Turns: consecutive monologues of one speaker, with the speaker's name.

/// One Turn of the rendered transcript.
#[derive(Debug, Clone)]
pub struct Turn {
    pub speaker_id: String,
    pub speaker_name: String,
    pub start_ms: u64,
    pub text: String,
}

/// The mathematical value of a Turn.
pub struct TurnView {
    pub speaker_id: Seq<char>,
    pub speaker_name: Seq<char>,
    pub start_ms: nat,
    pub text: Seq<char>,
}

impl View for Turn {
    type V = TurnView;

    open spec fn view(&self) -> TurnView {
        TurnView {
            speaker_id: self.speaker_id@,
            speaker_name: self.speaker_name@,
            start_ms: self.start_ms as nat,
            text: self.text@,
        }
    }
}

/// The values of a list of Turns.
pub open spec fn turn_views(turns: Seq<Turn>) -> Seq<TurnView> {
    turns.map_values(|t: Turn| t@)
}

/// The name of a speaker: the name of the last Party that carries both this
/// speaker id and a name.
pub open spec fn speaker_name_of(parties: Seq<Party>, speaker_id: Seq<char>) -> Option<Seq<char>>
    decreases parties.len(),
{
    if parties.len() == 0 {
        None
    } else {
        let p = parties.last();
        if p.speaker_id matches Some(s) && s@ == speaker_id && p.name is Some {
            Some(p.name.unwrap()@)
        } else {
            speaker_name_of(parties.drop_last(), speaker_id)
        }
    }
}

/// The text of a monologue: its trimmed, non-empty sentences joined by one
/// space.
pub open spec fn joined_sentences(sentences: Seq<crate::api::Sentence>) -> Seq<char>
    decreases sentences.len(),
{
    if sentences.len() == 0 {
        Seq::empty()
    } else {
        let prev = joined_sentences(sentences.drop_last());
        let t = trim(sentences.last().text@);
        if t.len() == 0 {
            prev
        } else if prev.len() == 0 {
            t
        } else {
            prev + seq![' '] + t
        }
    }
}

/// The Turns of a transcript: monologues without text are dropped, and a
/// monologue by the same speaker as the previous Turn extends it.  A speaker
/// with no named Party is `Unknown`.
pub open spec fn spec_turns(parties: Seq<Party>, entries: Seq<TranscriptEntry>) -> Seq<TurnView>
    decreases entries.len(),
{
    if entries.len() == 0 {
        Seq::empty()
    } else {
        let prev = spec_turns(parties, entries.drop_last());
        let e = entries.last();
        let text = joined_sentences(e.sentences@);
        if e.sentences@.len() == 0 || text.len() == 0 {
            prev
        } else if prev.len() > 0 && prev.last().speaker_id == e.speaker_id@ {
            let last = prev.last();
            prev.update(
                prev.len() - 1,
                TurnView { text: last.text + seq![' '] + text, ..last },
            )
        } else {
            prev.push(
                TurnView {
                    speaker_id: e.speaker_id@,
                    speaker_name: match speaker_name_of(parties, e.speaker_id@) {
                        Some(n) => n,
                        None => "Unknown"@,
                    },
                    start_ms: e.sentences@[0].start as nat,
                    text,
                },
            )
        }
    }
}

/// The name of the speaker with the given id.
fn speaker_name(parties: &Vec<Party>, speaker_id: &str) -> (r: String)
    ensures
        r@ == match speaker_name_of(parties@, speaker_id@) {
            Some(n) => n,
            None => "Unknown"@,
        },
{
    let mut found: Option<&str> = None;
    let mut i: usize = 0;
    while i < parties.len()
        invariant
            i <= parties.len(),
            match found {
                Some(n) => speaker_name_of(parties@.take(i as int), speaker_id@) == Some(n@),
                None => speaker_name_of(parties@.take(i as int), speaker_id@) is None,
            },
        decreases parties.len() - i,
    {
        assert(parties@.take(i as int + 1).drop_last() =~= parties@.take(i as int));
        let p = &parties[i];
        if let Some(s) = &p.speaker_id {
            if let Some(n) = &p.name {
                if str_eq(s.as_str(), speaker_id) {
                    found = Some(n.as_str());
                }
            }
        }
        i = i + 1;
    }
    assert(parties@.take(parties.len() as int) =~= parties@);
    match found {
        Some(n) => n.to_owned(),
        None => "Unknown".to_owned(),
    }
}

/// The text of a monologue.
fn sentence_text(sentences: &Vec<crate::api::Sentence>) -> (r: String)
    ensures
        r@ == joined_sentences(sentences@),
{
    let mut text = String::new();
    let mut i: usize = 0;
    while i < sentences.len()
        invariant
            i <= sentences.len(),
            text@ == joined_sentences(sentences@.take(i as int)),
        decreases sentences.len() - i,
    {
        assert(sentences@.take(i as int + 1).drop_last() =~= sentences@.take(i as int));
        let t = trim_str(sentences[i].text.as_str());
        if t.as_str().is_empty() {
        } else if text.as_str().is_empty() {
            push_str(&mut text, t.as_str());
        } else {
            push_char(&mut text, ' ');
            push_str(&mut text, t.as_str());
        }
        i = i + 1;
    }
    assert(sentences@.take(sentences.len() as int) =~= sentences@);
    text
}

/// Builds the Turns of a transcript.
pub fn build_turns(parties: &Vec<Party>, transcript: &CallTranscript) -> (r: Vec<Turn>)
    ensures
        turn_views(r@) == spec_turns(parties@, transcript.transcript@),
{
    let entries = &transcript.transcript;
    let mut turns: Vec<Turn> = Vec::new();
    let mut i: usize = 0;
    while i < entries.len()
        invariant
            i <= entries.len(),
            turn_views(turns@) == spec_turns(parties@, entries@.take(i as int)),
        decreases entries.len() - i,
    {
        assert(entries@.take(i as int + 1).drop_last() =~= entries@.take(i as int));
        let entry = &entries[i];
        let ghost prev = turn_views(turns@);
        if entry.sentences.len() > 0 {
            let text = sentence_text(&entry.sentences);
            if !text.as_str().is_empty() {
                let n = turns.len();
                let mut extend = false;
                if n > 0 {
                    extend = str_eq(turns[n - 1].speaker_id.as_str(), entry.speaker_id.as_str());
                }
                if extend {
                    let ghost old_turns = turns@;
                    let mut last = turns.pop().unwrap();
                    assert(turns@ =~= old_turns.drop_last());
                    assert(last == old_turns.last());
                    let ghost old_last = last;
                    push_char(&mut last.text, ' ');
                    push_str(&mut last.text, text.as_str());
                    turns.push(last);
                    assert(last.text@ =~= old_last.text@ + seq![' '] + text@);
                    assert(last@ == TurnView { text: old_last@.text + seq![' '] + text@, ..old_last@ });
                    assert(prev.last() == old_last@);
                    assert(turn_views(turns@) =~= prev.update(
                        prev.len() - 1,
                        TurnView { text: old_last@.text + seq![' '] + text@, ..old_last@ },
                    ));
                } else {
                    let name = speaker_name(parties, entry.speaker_id.as_str());
                    let turn = Turn {
                        speaker_id: entry.speaker_id.clone(),
                        speaker_name: name,
                        start_ms: entry.sentences[0].start,
                        text,
                    };
                    turns.push(turn);
                    assert(turn_views(turns@) =~= prev.push(turn@));
                }
            }
        }
        i = i + 1;
    }
    assert(entries@.take(entries.len() as int) =~= entries@);
    turns
}

// ---------------------------------------------------------------------------
// Summary, key points and next steps.

/// Non-empty trimmed items, in order.
pub open spec fn clean_items(items: Seq<Seq<char>>) -> Seq<Seq<char>>
    decreases items.len(),
{
    if items.len() == 0 {
        Seq::empty()
    } else {
        let prev = clean_items(items.drop_last());
        let t = trim(items.last());
        if t.len() == 0 {
            prev
        } else {
            prev.push(t)
        }
    }
}

/// `- item` lines.
pub open spec fn bullet_lines(items: Seq<Seq<char>>) -> Seq<char>
    decreases items.len(),
{
    if items.len() == 0 {
        Seq::empty()
    } else {
        bullet_lines(items.drop_last()) + "- "@ + items.last() + "\n"@
    }
}

/// A bulleted list followed by a blank line, or the placeholder paragraph
/// when no item has text.
pub open spec fn bullets(items: Seq<Seq<char>>) -> Seq<char> {
    let clean = clean_items(items);
    if clean.len() == 0 {
        PLACEHOLDER@ + "\n\n"@
    } else {
        bullet_lines(clean) + "\n"@
    }
}

/// The views of a list of string slices.
pub open spec fn str_views(items: Seq<&str>) -> Seq<Seq<char>> {
    items.map_values(|s: &str| s@)
}

/// Appends a bulleted list.
pub fn emit_bullets(output: &mut String, items: &Vec<&str>)
    ensures
        final(output)@ == old(output)@ + bullets(str_views(items@)),
{
    let ghost start = output@;
    let ghost views = str_views(items@);
    let mut clean: Vec<String> = Vec::new();
    let mut i: usize = 0;
    while i < items.len()
        invariant
            i <= items.len(),
            views == str_views(items@),
            clean@.map_values(|s: String| s@) == clean_items(views.take(i as int)),
        decreases items.len() - i,
    {
        assert(views.take(i as int + 1).drop_last() =~= views.take(i as int));
        assert(views.take(i as int + 1).last() == items@[i as int]@);
        let t = trim_str(items[i]);
        let ghost before = clean@;
        if !t.as_str().is_empty() {
            clean.push(t);
            assert(clean@.map_values(|s: String| s@) =~= before.map_values(|s: String| s@).push(
                t@,
            ));
        }
        i = i + 1;
    }
    assert(views.take(items.len() as int) =~= views);
    let ghost cv = clean@.map_values(|s: String| s@);
    if clean.len() == 0 {
        push_str(output, PLACEHOLDER);
        push_str(output, "\n\n");
        return;
    }
    let mut k: usize = 0;
    while k < clean.len()
        invariant
            k <= clean.len(),
            cv == clean@.map_values(|s: String| s@),
            output@ == start + bullet_lines(cv.take(k as int)),
        decreases clean.len() - k,
    {
        assert(cv.take(k as int + 1).drop_last() =~= cv.take(k as int));
        assert(cv.take(k as int + 1).last() == clean@[k as int]@);
        push_str(output, "- ");
        push_str(output, clean[k].as_str());
        push_str(output, "\n");
        k = k + 1;
    }
    assert(cv.take(clean.len() as int) =~= cv);
    push_str(output, "\n");
}

/// The Spotlight brief, trimmed, or the placeholder when it is missing or
/// blank.
pub open spec fn summary_text(call: ExtensiveCall) -> Seq<char> {
    match call.content {
        Some(c) => match c.brief {
            Some(b) => if trim(b@).len() > 0 { trim(b@) } else { PLACEHOLDER@ },
            None => PLACEHOLDER@,
        },
        None => PLACEHOLDER@,
    }
}

/// The key points' texts.
pub open spec fn key_point_texts(call: ExtensiveCall) -> Seq<Seq<char>> {
    match call.content {
        Some(c) => match c.key_points {
            Some(items) => items@.map_values(|i: crate::api::TextItem| i.text@),
            None => Seq::empty(),
        },
        None => Seq::empty(),
    }
}

/// ASCII lower case of one character.
pub open spec fn ascii_lower(c: char) -> char {
    if 'A' <= c <= 'Z' {
        ((c as u32) + 32) as char
    } else {
        c
    }
}

/// `str::eq_ignore_ascii_case`.
pub open spec fn eq_ignore_ascii_case(a: Seq<char>, b: Seq<char>) -> bool {
    a.len() == b.len() && forall|i: int| 0 <= i < a.len() ==> ascii_lower(#[trigger] a[i])
        == ascii_lower(b[i])
}

/// The first highlight group titled "Next steps", in any ASCII case.
pub open spec fn next_steps_group(highlights: Seq<crate::api::Highlight>) -> Option<
    crate::api::Highlight,
>
    decreases highlights.len(),
{
    if highlights.len() == 0 {
        None
    } else if eq_ignore_ascii_case(highlights[0].title@, "Next steps"@) {
        Some(highlights[0])
    } else {
        next_steps_group(highlights.drop_first())
    }
}

/// The next steps' texts.
pub open spec fn next_step_texts(call: ExtensiveCall) -> Seq<Seq<char>> {
    match call.content {
        Some(c) => match c.highlights {
            Some(h) => match next_steps_group(h@) {
                Some(g) => g.items@.map_values(|i: crate::api::HighlightItem| i.text@),
                None => Seq::empty(),
            },
            None => Seq::empty(),
        },
        None => Seq::empty(),
    }
}

pub(crate) fn ascii_lower_exec(c: char) -> (r: char)
    ensures
        r == ascii_lower(c),
{
    if 'A' <= c && c <= 'Z' {
        ((c as u8) + 32) as char
    } else {
        c
    }
}

/// `str::eq_ignore_ascii_case`.
pub fn eq_ignore_ascii_case_exec(a: &str, b: &str) -> (r: bool)
    ensures
        r == eq_ignore_ascii_case(a@, b@),
{
    let x = chars_of(a);
    let y = chars_of(b);
    if x.len() != y.len() {
        return false;
    }
    let mut i: usize = 0;
    while i < x.len()
        invariant
            x@ == a@,
            y@ == b@,
            x.len() == y.len(),
            i <= x.len(),
            forall|j: int| 0 <= j < i ==> ascii_lower(#[trigger] x@[j]) == ascii_lower(y@[j]),
        decreases x.len() - i,
    {
        if ascii_lower_exec(x[i]) != ascii_lower_exec(y[i]) {
            return false;
        }
        i = i + 1;
    }
    true
}

/// The key points' texts.
fn key_points_of(call: &ExtensiveCall) -> (r: Vec<&str>)
    ensures
        str_views(r@) == key_point_texts(*call),
{
    let mut r: Vec<&str> = Vec::new();
    if let Some(c) = &call.content {
        if let Some(items) = &c.key_points {
            let mut i: usize = 0;
            while i < items.len()
                invariant
                    i <= items.len(),
                    str_views(r@) == items@.take(i as int).map_values(
                        |t: crate::api::TextItem| t.text@,
                    ),
                decreases items.len() - i,
            {
                let ghost old_r = r@;
                let s = items[i].text.as_str();
                r.push(s);
                assert(str_views(r@) =~= str_views(old_r).push(s@));
                assert(items@.take(i as int + 1).map_values(|t: crate::api::TextItem| t.text@)
                    =~= items@.take(i as int).map_values(|t: crate::api::TextItem| t.text@).push(items@[i as int].text@));
                i = i + 1;
            }
            assert(items@.take(items.len() as int) =~= items@);
        }
    }
    assert(str_views(r@) =~= key_point_texts(*call));
    r
}

/// The next steps' texts.
#[verifier::loop_isolation(false)]
fn next_steps_of(call: &ExtensiveCall) -> (r: Vec<&str>)
    ensures
        str_views(r@) == next_step_texts(*call),
{
    let mut r: Vec<&str> = Vec::new();
    if let Some(c) = &call.content {
        if let Some(h) = &c.highlights {
            let mut g: usize = 0;
            assert(h@.skip(0) =~= h@);
            while g < h.len()
                invariant
                    g <= h.len(),
                    r@.len() == 0,
                    next_steps_group(h@) == next_steps_group(h@.skip(g as int)),
                decreases h.len() - g,
            {
                assert(h@.skip(g as int)[0] == h@[g as int]);
                assert(h@.skip(g as int).drop_first() =~= h@.skip(g as int + 1));
                if eq_ignore_ascii_case_exec(h[g].title.as_str(), "Next steps") {
                    let items = &h[g].items;
                    let mut i: usize = 0;
                    while i < items.len()
                        invariant
                            i <= items.len(),
                            str_views(r@) == items@.take(i as int).map_values(
                                |t: crate::api::HighlightItem| t.text@,
                            ),
                        decreases items.len() - i,
                    {
                        let ghost old_r = r@;
                        let s = items[i].text.as_str();
                        r.push(s);
                        assert(str_views(r@) =~= str_views(old_r).push(s@));
                        assert(items@.take(i as int + 1).map_values(|t: crate::api::HighlightItem| t.text@)
                            =~= items@.take(i as int).map_values(|t: crate::api::HighlightItem| t.text@).push(items@[i as int].text@));
                        i = i + 1;
                    }
                    assert(items@.take(items.len() as int) =~= items@);
                    return r;
                }
                g = g + 1;
            }
        }
    }
    assert(str_views(r@) =~= next_step_texts(*call));
    r
}

/// Appends the summary paragraph.
fn emit_summary(output: &mut String, call: &ExtensiveCall)
    ensures
        final(output)@ == old(output)@ + summary_text(*call),
{
    if let Some(c) = &call.content {
        if let Some(b) = &c.brief {
            let t = trim_str(b.as_str());
            if !t.as_str().is_empty() {
                push_str(output, t.as_str());
                return;
            }
        }
    }
    push_str(output, PLACEHOLDER);
}

// ---------------------------------------------------------------------------
// Outline and transcript sections.

/// The outline sections that carry a start time, as (title, start in ms).
pub open spec fn timed_sections(sections: Seq<OutlineSection>) -> Seq<(Seq<char>, int)>
    decreases sections.len(),
{
    if sections.len() == 0 {
        Seq::empty()
    } else {
        let prev = timed_sections(sections.drop_last());
        match sections.last().start_ms {
            Some(ms) => prev.push((sections.last().section@, ms as int)),
            None => prev,
        }
    }
}

/// Inserts a section after every section that starts no later.
pub open spec fn insert_timed(sorted: Seq<(Seq<char>, int)>, x: (Seq<char>, int)) -> Seq<
    (Seq<char>, int),
>
    decreases sorted.len(),
{
    if sorted.len() == 0 {
        seq![x]
    } else if sorted.last().1 <= x.1 {
        sorted.push(x)
    } else {
        insert_timed(sorted.drop_last(), x).push(sorted.last())
    }
}

/// The stable sort of sections by start time.
pub open spec fn sort_timed(sections: Seq<(Seq<char>, int)>) -> Seq<(Seq<char>, int)>
    decreases sections.len(),
{
    if sections.len() == 0 {
        Seq::empty()
    } else {
        insert_timed(sort_timed(sections.drop_last()), sections.last())
    }
}

/// The outline of a Call: its timed sections in order of start.
pub open spec fn outline_of(call: ExtensiveCall) -> Seq<(Seq<char>, int)> {
    match call.content {
        Some(c) => match c.outline {
            Some(o) => sort_timed(timed_sections(o@)),
            None => Seq::empty(),
        },
        None => Seq::empty(),
    }
}

/// `M:SS` of a section start, a negative start counting as zero.
pub open spec fn section_stamp(ms: int) -> Seq<char> {
    minutes_seconds(if ms <= 0 { 0 } else { (ms / 1000) as nat })
}

/// `- [M:SS] Title` lines.
pub open spec fn toc_lines(sections: Seq<(Seq<char>, int)>) -> Seq<char>
    decreases sections.len(),
{
    if sections.len() == 0 {
        Seq::empty()
    } else {
        toc_lines(sections.drop_last()) + "- ["@ + section_stamp(sections.last().1) + "] "@
            + sections.last().0 + "\n"@
    }
}

/// The `## Outline` table of contents; nothing when no section is timed.
pub open spec fn outline_toc(sections: Seq<(Seq<char>, int)>) -> Seq<char> {
    if sections.len() == 0 {
        Seq::empty()
    } else {
        "## Outline\n\n"@ + toc_lines(sections) + "\n"@
    }
}

/// The last section that starts at or before `ms`.
pub open spec fn last_started(sections: Seq<(Seq<char>, int)>, ms: int) -> Option<int>
    decreases sections.len(),
{
    if sections.len() == 0 {
        None
    } else if sections.last().1 <= ms {
        Some(sections.len() - 1)
    } else {
        last_started(sections.drop_last(), ms)
    }
}

/// The section a Turn starting at `ms` belongs to; the first section for a
/// Turn before every section.
pub open spec fn section_index(sections: Seq<(Seq<char>, int)>, ms: int) -> int {
    match last_started(sections, ms) {
        Some(i) => i,
        None => 0,
    }
}

proof fn lemma_last_started(sections: Seq<(Seq<char>, int)>, ms: int)
    ensures
        match last_started(sections, ms) {
            Some(i) => 0 <= i < sections.len() && sections[i].1 <= ms && forall|j: int|
                i < j < sections.len() ==> (#[trigger] sections[j]).1 > ms,
            None => forall|j: int| 0 <= j < sections.len() ==> (#[trigger] sections[j]).1 > ms,
        },
    decreases sections.len(),
{
    if sections.len() > 0 {
        let init = sections.drop_last();
        lemma_last_started(init, ms);
        assert forall|j: int| 0 <= j < init.len() implies init[j] == sections[j] by {}
        assert(sections.last() == sections[sections.len() - 1]);
    }
}

/// A Turn belongs to the last section that starts no later than it does;
/// a Turn that starts before every section belongs to the first section.
pub proof fn lemma_turn_goes_to_the_last_section_started(sections: Seq<(Seq<char>, int)>, ms: int)
    ensures
        (forall|j: int| 0 <= j < sections.len() ==> (#[trigger] sections[j]).1 > ms)
            ==> section_index(sections, ms) == 0,
        (exists|j: int| 0 <= j < sections.len() && (#[trigger] sections[j]).1 <= ms) ==> {
            let i = section_index(sections, ms);
            &&& 0 <= i < sections.len()
            &&& sections[i].1 <= ms
            &&& forall|j: int| i < j < sections.len() ==> (#[trigger] sections[j]).1 > ms
        },
{
    lemma_last_started(sections, ms);
}

/// The Turns of section `i`, in order.
pub open spec fn section_turns(turns: Seq<TurnView>, sections: Seq<(Seq<char>, int)>, i: int) -> Seq<
    TurnView,
>
    decreases turns.len(),
{
    if turns.len() == 0 {
        Seq::empty()
    } else {
        let prev = section_turns(turns.drop_last(), sections, i);
        if section_index(sections, turns.last().start_ms as int) == i {
            prev.push(turns.last())
        } else {
            prev
        }
    }
}

/// One Turn: `M:SS | Speaker`, then its text, then a blank line.
pub open spec fn turn_block(t: TurnView) -> Seq<char> {
    minutes_seconds(t.start_ms / 1000) + " | "@ + t.speaker_name + "\n"@ + t.text + "\n\n"@
}

/// A run of Turns.
pub open spec fn turn_blocks(turns: Seq<TurnView>) -> Seq<char>
    decreases turns.len(),
{
    if turns.len() == 0 {
        Seq::empty()
    } else {
        turn_blocks(turns.drop_last()) + turn_block(turns.last())
    }
}

/// The first `n` transcript sections, each under its `### Title [M:SS]`
/// heading.
pub open spec fn section_blocks(sections: Seq<(Seq<char>, int)>, turns: Seq<TurnView>, n: nat) -> Seq<
    char,
>
    decreases n,
{
    if n == 0 {
        Seq::empty()
    } else {
        let i = n - 1;
        section_blocks(sections, turns, (n - 1) as nat) + "### "@ + sections[i].0 + " ["@
            + section_stamp(sections[i].1) + "]\n\n"@ + turn_blocks(
            section_turns(turns, sections, i),
        )
    }
}

/// The body of `## Transcript`: one section per outline section, or all
/// Turns in one run when the outline is empty.
pub open spec fn transcript_body(sections: Seq<(Seq<char>, int)>, turns: Seq<TurnView>) -> Seq<
    char,
> {
    if sections.len() == 0 {
        turn_blocks(turns)
    } else {
        section_blocks(sections, turns, sections.len())
    }
}

/// The values of a list of (title, start) pairs.
pub open spec fn timed_views(v: Seq<(&str, i64)>) -> Seq<(Seq<char>, int)> {
    v.map_values(|p: (&str, i64)| (p.0@, p.1 as int))
}

proof fn lemma_insert_timed_at(sorted: Seq<(Seq<char>, int)>, x: (Seq<char>, int), j: int)
    requires
        0 <= j <= sorted.len(),
        forall|k: int| j <= k < sorted.len() ==> (#[trigger] sorted[k]).1 > x.1,
        j == 0 || sorted[j - 1].1 <= x.1,
    ensures
        insert_timed(sorted, x) == sorted.take(j).push(x) + sorted.skip(j),
    decreases sorted.len(),
{
    if sorted.len() == 0 {
        assert(sorted.take(j).push(x) + sorted.skip(j) =~= seq![x]);
    } else if j == sorted.len() {
        assert(sorted.take(j).push(x) + sorted.skip(j) =~= sorted.push(x));
    } else {
        let d = sorted.drop_last();
        assert forall|k: int| j <= k < d.len() implies (#[trigger] d[k]).1 > x.1 by {
            assert(d[k] == sorted[k]);
        }
        if j > 0 {
            assert(d[j - 1] == sorted[j - 1]);
        }
        lemma_insert_timed_at(d, x, j);
        assert(d.take(j).push(x) + d.skip(j) + seq![sorted.last()] =~= sorted.take(j).push(x)
            + sorted.skip(j));
    }
}

/// The outline of a Call: its timed sections, stably sorted by start.
pub fn outline_sections(call: &ExtensiveCall) -> (r: Vec<(&str, i64)>)
    ensures
        timed_views(r@) == outline_of(*call),
{
    let mut sorted: Vec<(&str, i64)> = Vec::new();
    if let Some(c) = &call.content {
        if let Some(o) = &c.outline {
            let mut timed: Vec<(&str, i64)> = Vec::new();
            let mut i: usize = 0;
            while i < o.len()
                invariant
                    i <= o.len(),
                    timed_views(timed@) == timed_sections(o@.take(i as int)),
                decreases o.len() - i,
            {
                assert(o@.take(i as int + 1).drop_last() =~= o@.take(i as int));
                if let Some(ms) = o[i].start_ms {
                    let ghost before = timed@;
                    let pair = (o[i].section.as_str(), ms);
                    timed.push(pair);
                    assert(timed_views(timed@) =~= timed_views(before).push((pair.0@, ms as int)));
                }
                i = i + 1;
            }
            assert(o@.take(o.len() as int) =~= o@);
            let ghost tv = timed_views(timed@);
            let mut k: usize = 0;
            while k < timed.len()
                invariant
                    k <= timed.len(),
                    tv == timed_views(timed@),
                    timed_views(sorted@) == sort_timed(tv.take(k as int)),
                decreases timed.len() - k,
            {
                let x = timed[k];
                let mut j: usize = sorted.len();
                while j > 0 && sorted[j - 1].1 > x.1
                    invariant
                        j <= sorted.len(),
                        forall|m: int| j <= m < sorted.len() ==> (#[trigger] sorted@[m]).1 > x.1,
                    decreases j,
                {
                    j = j - 1;
                }
                let ghost sv = timed_views(sorted@);
                let ghost xv = (x.0@, x.1 as int);
                proof {
                    assert forall|m: int| j <= m < sv.len() implies (#[trigger] sv[m]).1 > xv.1 by {
                        assert(sv[m].1 == sorted@[m].1 as int);
                    }
                    if j > 0 {
                        assert(sv[j - 1].1 == sorted@[j - 1].1 as int);
                    }
                    lemma_insert_timed_at(sv, xv, j as int);
                    assert(tv.take(k as int + 1).drop_last() =~= tv.take(k as int));
                    assert(tv.take(k as int + 1).last() == xv);
                }
                sorted.insert(j, x);
                assert(timed_views(sorted@) =~= sv.take(j as int).push(xv) + sv.skip(j as int));
                k = k + 1;
            }
            assert(tv.take(timed.len() as int) =~= tv);
        }
    }
    sorted
}

/// Appends `M:SS` of a section start.
fn push_section_stamp(out: &mut String, ms: i64)
    ensures
        final(out)@ == old(out)@ + section_stamp(ms as int),
{
    if ms <= 0 {
        push_minutes_seconds(out, 0);
    } else {
        push_minutes_seconds(out, (ms / 1000) as u64);
    }
}

/// Appends the `## Outline` table of contents.
fn emit_outline(output: &mut String, sections: &Vec<(&str, i64)>)
    ensures
        final(output)@ == old(output)@ + outline_toc(timed_views(sections@)),
{
    let ghost start = output@;
    let ghost sv = timed_views(sections@);
    if sections.len() == 0 {
        return;
    }
    push_str(output, "## Outline\n\n");
    let ghost head = output@;
    let mut i: usize = 0;
    while i < sections.len()
        invariant
            i <= sections.len(),
            sv == timed_views(sections@),
            output@ == head + toc_lines(sv.take(i as int)),
        decreases sections.len() - i,
    {
        assert(sv.take(i as int + 1).drop_last() =~= sv.take(i as int));
        assert(sv.take(i as int + 1).last() == (sections@[i as int].0@, sections@[i as int].1 as int));
        push_str(output, "- [");
        push_section_stamp(output, sections[i].1);
        push_str(output, "] ");
        push_str(output, sections[i].0);
        push_str(output, "\n");
        i = i + 1;
    }
    assert(sv.take(sections.len() as int) =~= sv);
    push_str(output, "\n");
    assert(output@ =~= start + outline_toc(sv));
}

/// Appends one Turn.
fn push_turn(output: &mut String, turn: &Turn)
    ensures
        final(output)@ == old(output)@ + turn_block(turn@),
{
    let ghost start = output@;
    push_minutes_seconds(output, turn.start_ms / 1000);
    push_str(output, " | ");
    push_str(output, turn.speaker_name.as_str());
    push_str(output, "\n");
    push_str(output, turn.text.as_str());
    push_str(output, "\n\n");
    assert(output@ =~= start + turn_block(turn@));
}

/// Appends a run of Turns.
pub fn emit_turns(output: &mut String, turns: &Vec<Turn>)
    ensures
        final(output)@ == old(output)@ + turn_blocks(turn_views(turns@)),
{
    let ghost start = output@;
    let ghost tv = turn_views(turns@);
    let mut i: usize = 0;
    while i < turns.len()
        invariant
            i <= turns.len(),
            tv == turn_views(turns@),
            output@ == start + turn_blocks(tv.take(i as int)),
        decreases turns.len() - i,
    {
        assert(tv.take(i as int + 1).drop_last() =~= tv.take(i as int));
        push_turn(output, &turns[i]);
        i = i + 1;
    }
    assert(tv.take(turns.len() as int) =~= tv);
}

/// The section a Turn starting at `ms` belongs to.
fn section_of(sections: &Vec<(&str, i64)>, ms: u64) -> (r: usize)
    ensures
        r as int == section_index(timed_views(sections@), ms as int),
        sections.len() > 0 ==> r < sections.len(),
{
    let ghost sv = timed_views(sections@);
    let mut k: usize = sections.len();
    assert(sv.take(k as int) =~= sv);
    while k > 0
        invariant
            k <= sections.len(),
            sv == timed_views(sections@),
            last_started(sv, ms as int) == last_started(sv.take(k as int), ms as int),
        decreases k,
    {
        let start = sections[k - 1].1;
        let ghost t = sv.take(k as int);
        assert(t.last() == sv[k - 1]);
        assert(t.drop_last() =~= sv.take(k as int - 1));
        if start < 0 || (start as u64) <= ms {
            return k - 1;
        }
        k = k - 1;
    }
    0
}

/// Appends the body of `## Transcript`.
fn emit_transcript(output: &mut String, sections: &Vec<(&str, i64)>, turns: &Vec<Turn>)
    ensures
        final(output)@ == old(output)@ + transcript_body(
            timed_views(sections@),
            turn_views(turns@),
        ),
{
    let ghost start = output@;
    let ghost sv = timed_views(sections@);
    let ghost tv = turn_views(turns@);
    if sections.len() == 0 {
        emit_turns(output, turns);
        return;
    }
    let mut index_of: Vec<usize> = Vec::new();
    let mut k: usize = 0;
    while k < turns.len()
        invariant
            k <= turns.len(),
            sv == timed_views(sections@),
            tv == turn_views(turns@),
            index_of.len() == k,
            forall|m: int|
                0 <= m < k ==> (#[trigger] index_of@[m]) as int == section_index(
                    sv,
                    tv[m].start_ms as int,
                ),
        decreases turns.len() - k,
    {
        index_of.push(section_of(sections, turns[k].start_ms));
        k = k + 1;
    }
    let mut i: usize = 0;
    while i < sections.len()
        invariant
            i <= sections.len(),
            sv == timed_views(sections@),
            tv == turn_views(turns@),
            index_of.len() == turns.len(),
            forall|m: int|
                0 <= m < turns.len() ==> (#[trigger] index_of@[m]) as int == section_index(
                    sv,
                    tv[m].start_ms as int,
                ),
            output@ == start + section_blocks(sv, tv, i as nat),
        decreases sections.len() - i,
    {
        let ghost before = output@;
        push_str(output, "### ");
        push_str(output, sections[i].0);
        push_str(output, " [");
        push_section_stamp(output, sections[i].1);
        push_str(output, "]\n\n");
        let ghost head = output@;
        let mut m: usize = 0;
        while m < turns.len()
            invariant
                m <= turns.len(),
                i < sections.len(),
                tv == turn_views(turns@),
                index_of.len() == turns.len(),
                forall|q: int|
                    0 <= q < turns.len() ==> (#[trigger] index_of@[q]) as int == section_index(
                        sv,
                        tv[q].start_ms as int,
                    ),
                output@ == head + turn_blocks(section_turns(tv.take(m as int), sv, i as int)),
            decreases turns.len() - m,
        {
            assert(tv.take(m as int + 1).drop_last() =~= tv.take(m as int));
            assert(tv.take(m as int + 1).last() == tv[m as int]);
            assert(tv[m as int] == turns@[m as int]@);
            let ghost prev_part = section_turns(tv.take(m as int), sv, i as int);
            if index_of[m] == i {
                push_turn(output, &turns[m]);
                assert(section_turns(tv.take(m as int + 1), sv, i as int) == prev_part.push(
                    tv[m as int],
                ));
                assert(prev_part.push(tv[m as int]).drop_last() =~= prev_part);
            } else {
                assert(section_turns(tv.take(m as int + 1), sv, i as int) == prev_part);
            }
            m = m + 1;
        }
        assert(tv.take(turns.len() as int) =~= tv);
        assert(sv[i as int] == (sections@[i as int].0@, sections@[i as int].1 as int));
        assert(output@ =~= start + section_blocks(sv, tv, (i + 1) as nat));
        i = i + 1;
    }
}

// ---------------------------------------------------------------------------
// The whole Call File.

/// One `key: "value"` front-matter line.
pub open spec fn yaml_line(key: Seq<char>, value: Seq<char>) -> Seq<char> {
    field_line(Seq::empty(), key, value)
}

/// A front-matter line that is present only when its value is.
pub open spec fn optional_line(key: Seq<char>, value: Option<Seq<char>>) -> Seq<char> {
    match value {
        Some(v) => yaml_line(key, v),
        None => Seq::empty(),
    }
}

/// The YAML front matter: stable field order, every string quoted and
/// escaped, contacts sorted.  The Account line is absent without an Account
/// name and the host line without a host; no other CRM field appears.
pub open spec fn frontmatter(call: ExtensiveCall, date: Seq<char>) -> Seq<char> {
    "---\n"@ + metadata_lines(call, date) + contact_lines(call) + "---\n\n"@
}

/// The scalar front-matter lines, from `title` to `source_type`.
pub open spec fn metadata_lines(call: ExtensiveCall, date: Seq<char>) -> Seq<char> {
    let m = call.metadata;
    yaml_line("title"@, m.title@) + optional_line("account"@, spec_account_name(call)) + yaml_line(
        "date"@,
        date,
    ) + yaml_line("started"@, m.started@) + "duration_minutes: "@ + decimal(
        m.duration as nat / 60,
    ) + "\n"@ + yaml_line("meeting_provider"@, or_empty(m.system)) + optional_line(
        "host"@,
        spec_host_name(call),
    ) + yaml_line("gong_call_id"@, m.id@) + yaml_line("gong_url"@, or_empty(m.url)) + yaml_line(
        "document_type"@,
        "meeting-notes"@,
    ) + yaml_line("source_type"@, "gong-transcript"@)
}

/// The two contact lists: customer contacts (every Party that is not
/// Internal) and internal attendees, each sorted by name, then email.
pub open spec fn contact_lines(call: ExtensiveCall) -> Seq<char> {
    party_list("customer_contacts"@, sort_parties(select_parties(call.parties@, false)))
        + party_list("internal_attendees"@, sort_parties(select_parties(call.parties@, true)))
}

/// The Markdown body: one H1 with the title, the Summary with key points
/// and next steps, the Outline, and the Transcript sliced by outline section.
pub open spec fn body(call: ExtensiveCall, turns: Seq<TurnView>) -> Seq<char> {
    "# "@ + call.metadata.title@ + "\n\n"@ + "## Summary\n\n"@ + summary_text(call) + "\n\n"@
        + "### Key points\n\n"@ + bullets(key_point_texts(call)) + "### Next steps\n\n"@
        + bullets(next_step_texts(call)) + outline_toc(outline_of(call)) + "## Transcript\n\n"@
        + transcript_body(outline_of(call), turns)
}

/// The complete Markdown of a Call File.
pub open spec fn spec_markdown(merged: MergedCall, date: Seq<char>) -> Seq<char> {
    frontmatter(merged.call, date) + body(
        merged.call,
        spec_turns(merged.call.parties@, merged.transcript.transcript@),
    )
}

/// Of a Call's CRM context only the Account name reaches its Call File: two
/// Calls that differ in nothing but their CRM context, and name the same
/// Account, render to the same Markdown.
pub proof fn lemma_only_the_account_name_leaves_crm_context(
    a: MergedCall,
    b: MergedCall,
    date: Seq<char>,
)
    requires
        a.call.metadata == b.call.metadata,
        a.call.parties@ == b.call.parties@,
        a.call.content == b.call.content,
        a.transcript == b.transcript,
        spec_account_name(a.call) == spec_account_name(b.call),
    ensures
        spec_markdown(a, date) == spec_markdown(b, date),
{
}

/// Appends a front-matter line only when its value is present.
fn push_optional_line(out: &mut String, key: &str, value: Option<&str>)
    ensures
        final(out)@ == old(out)@ + optional_line(
            key@,
            match value {
                Some(v) => Some(v@),
                None => None,
            },
        ),
{
    if let Some(v) = value {
        yaml_string(out, key, v);
    } else {
        assert(old(out)@ + Seq::<char>::empty() =~= old(out)@);
    }
}

/// The text of an optional string, empty when absent.
fn opt_str(s: &Option<String>) -> (r: &str)
    ensures
        r@ == or_empty(*s),
{
    match s {
        Some(v) => v.as_str(),
        None => {
            proof {
                reveal_strlit("");
            }
            ""
        },
    }
}

/// Appends the scalar front-matter lines.
fn emit_metadata(output: &mut String, call: &ExtensiveCall, date: &str)
    ensures
        final(output)@ == old(output)@ + metadata_lines(*call, date@),
{
    let ghost start = output@;
    let m = &call.metadata;
    yaml_string(output, "title", m.title.as_str());
    let account = call.account_name();
    push_optional_line(output, "account", account);
    yaml_string(output, "date", date);
    yaml_string(output, "started", m.started.as_str());
    let ghost mid = output@;
    assert(mid =~= start + yaml_line("title"@, m.title@) + optional_line("account"@, spec_account_name(*call)) + yaml_line(
        "date"@, date@) + yaml_line("started"@, m.started@));
    push_str(output, "duration_minutes: ");
    push_decimal(output, m.duration / 60);
    push_str(output, "\n");
    yaml_string(output, "meeting_provider", opt_str(&m.system));
    let host = call.host_name();
    push_optional_line(output, "host", host);
    yaml_string(output, "gong_call_id", m.id.as_str());
    yaml_string(output, "gong_url", opt_str(&m.url));
    yaml_string(output, "document_type", "meeting-notes");
    yaml_string(output, "source_type", "gong-transcript");
    assert(output@ =~= start + metadata_lines(*call, date@));
}

/// Appends the two contact lists.
fn emit_contacts(output: &mut String, call: &ExtensiveCall)
    ensures
        final(output)@ == old(output)@ + contact_lines(*call),
{
    let ghost start = output@;
    let customers = sort_party_list(&select_party_list(&call.parties, false));
    let internal = sort_party_list(&select_party_list(&call.parties, true));
    yaml_parties(output, "customer_contacts", &customers);
    yaml_parties(output, "internal_attendees", &internal);
    assert(output@ =~= start + contact_lines(*call));
}

/// Appends the YAML front matter.
fn emit_frontmatter(output: &mut String, call: &ExtensiveCall, date: &str)
    ensures
        final(output)@ == old(output)@ + frontmatter(*call, date@),
{
    let ghost start = output@;
    push_str(output, "---\n");
    emit_metadata(output, call, date);
    emit_contacts(output, call);
    push_str(output, "---\n\n");
    assert(output@ =~= start + frontmatter(*call, date@));
}

/// Appends the Markdown body.
fn emit_body(output: &mut String, call: &ExtensiveCall, turns: &Vec<Turn>)
    ensures
        final(output)@ == old(output)@ + body(*call, turn_views(turns@)),
{
    let ghost start = output@;
    push_str(output, "# ");
    push_str(output, call.metadata.title.as_str());
    push_str(output, "\n\n");
    push_str(output, "## Summary\n\n");
    emit_summary(output, call);
    push_str(output, "\n\n");
    push_str(output, "### Key points\n\n");
    let key_points = key_points_of(call);
    emit_bullets(output, &key_points);
    push_str(output, "### Next steps\n\n");
    let next_steps = next_steps_of(call);
    emit_bullets(output, &next_steps);
    let outline = outline_sections(call);
    emit_outline(output, &outline);
    push_str(output, "## Transcript\n\n");
    emit_transcript(output, &outline, turns);
    assert(output@ =~= start + body(*call, turn_views(turns@)));
}

/// Renders one Call File: the canonical file name, then the front matter and
/// body.  Rendering the same input twice gives the same bytes.
pub fn render_call(merged: &MergedCall) -> (r: Result<RenderedCall, RenderError>)
    ensures
        match r {
            Ok(rendered) => {
                &&& merged.call.metadata.id@ == merged.transcript.call_id@
                &&& spec_parse_rfc3339(merged.call.metadata.started@) matches Some(t)
                &&& rendered.filename@ == spec_canonical_filename(merged.call, t)
                &&& rendered.markdown@ == spec_markdown(*merged, date_text(t.date))
            },
            Err(RenderError::TranscriptMismatch { call_id, transcript_call_id }) => {
                &&& merged.call.metadata.id@ != merged.transcript.call_id@
                &&& call_id == merged.call.metadata.id
                &&& transcript_call_id == merged.transcript.call_id
            },
            Err(RenderError::InvalidStarted { call_id, started }) => {
                &&& merged.call.metadata.id@ == merged.transcript.call_id@
                &&& spec_parse_rfc3339(merged.call.metadata.started@) is None
                &&& call_id == merged.call.metadata.id
                &&& started == merged.call.metadata.started
            },
        },
{
    let call = &merged.call;
    if !str_eq(call.metadata.id.as_str(), merged.transcript.call_id.as_str()) {
        return Err(
            RenderError::TranscriptMismatch {
                call_id: call.metadata.id.clone(),
                transcript_call_id: merged.transcript.call_id.clone(),
            },
        );
    }
    let t = match parse_rfc3339(call.metadata.started.as_str()) {
        Some(t) => t,
        None => {
            return Err(
                RenderError::InvalidStarted {
                    call_id: call.metadata.id.clone(),
                    started: call.metadata.started.clone(),
                },
            );
        },
    };
    let filename = filename_for(call, t);
    let mut date = String::new();
    push_date(&mut date, t.date);
    let turns = build_turns(&call.parties, &merged.transcript);
    let mut markdown = String::new();
    emit_frontmatter(&mut markdown, call, date.as_str());
    emit_body(&mut markdown, call, &turns);
    assert(markdown@ =~= spec_markdown(*merged, date_text(t.date)));
    Ok(RenderedCall { filename, markdown })
}

} // verus!

//! The sync report and the flat `key=value` status file that cron wrappers
//! read: its contents, and how a previous status file is read back.
use vstd::prelude::*;
use crate::text::{chars_of, decimal, lemma_decimal_digits, push_char, push_decimal, push_str,
    string_from_chars};
use crate::sync::lemma_decimal_injective;

verus! {

/// Counts of one sync run.
#[derive(Debug, Default, Clone, Copy, PartialEq, Eq)]
pub struct SyncReport {
    pub new: usize,
    pub healed: usize,
    pub skipped: usize,
    pub failed: usize,
}

/// `synced N new, healed N, skipped N, failed N`.
pub open spec fn summary_text(r: SyncReport) -> Seq<char> {
    "synced "@ + decimal(r.new as nat) + " new, healed "@ + decimal(r.healed as nat)
        + ", skipped "@ + decimal(r.skipped as nat) + ", failed "@ + decimal(r.failed as nat)
}

impl SyncReport {
    /// A report with every count at zero.
    pub fn empty() -> (r: SyncReport)
        ensures
            r.new == 0 && r.healed == 0 && r.skipped == 0 && r.failed == 0,
    {
        SyncReport { new: 0, healed: 0, skipped: 0, failed: 0 }
    }

    /// The one-line summary that sync prints on stdout.
    pub fn summary(self) -> (r: String)
        ensures
            r@ == summary_text(self),
    {
        let mut s = String::new();
        push_str(&mut s, "synced ");
        push_decimal(&mut s, self.new as u64);
        push_str(&mut s, " new, healed ");
        push_decimal(&mut s, self.healed as u64);
        push_str(&mut s, ", skipped ");
        push_decimal(&mut s, self.skipped as u64);
        push_str(&mut s, ", failed ");
        push_decimal(&mut s, self.failed as u64);
        assert(s@ =~= summary_text(self));
        s
    }
}

/// The message with every line break replaced by a space, so that it stays
/// on one line of the status file.
pub open spec fn one_line(message: Seq<char>) -> Seq<char> {
    message.map_values(|c: char| if c == '\n' || c == '\r' { ' ' } else { c })
}

/// `name=value`.
pub open spec fn kv(name: Seq<char>, value: Seq<char>) -> Seq<char> {
    name + seq!['='] + value
}

/// One `name=value` line per pair, each ended by a line break.
pub open spec fn kv_lines(pairs: Seq<(Seq<char>, Seq<char>)>) -> Seq<char>
    decreases pairs.len(),
{
    if pairs.len() == 0 {
        Seq::empty()
    } else {
        kv_lines(pairs.drop_last()) + kv(pairs.last().0, pairs.last().1) + seq!['\n']
    }
}

/// The entries of the status file, in order: state, run time, last success
/// and failure times, message, and the four counts.
pub open spec fn status_pairs(
    state: Seq<char>,
    run_at: Seq<char>,
    success_at: Seq<char>,
    failure_at: Seq<char>,
    message: Seq<char>,
    r: SyncReport,
) -> Seq<(Seq<char>, Seq<char>)> {
    seq![
        ("last_state"@, state),
        ("last_run_at"@, run_at),
        ("last_success_at"@, success_at),
        ("last_failure_at"@, failure_at),
        ("last_message"@, one_line(message)),
        ("new"@, decimal(r.new as nat)),
        ("healed"@, decimal(r.healed as nat)),
        ("skipped"@, decimal(r.skipped as nat)),
        ("failed"@, decimal(r.failed as nat)),
    ]
}

/// The contents of the status file: one `name=value` line per entry.
pub open spec fn status_text(
    state: Seq<char>,
    run_at: Seq<char>,
    success_at: Seq<char>,
    failure_at: Seq<char>,
    message: Seq<char>,
    r: SyncReport,
) -> Seq<char> {
    kv_lines(status_pairs(state, run_at, success_at, failure_at, message, r))
}

/// The first index of `c` in `s`.
pub open spec fn index_of(s: Seq<char>, c: char) -> Option<int>
    decreases s.len(),
{
    if s.len() == 0 {
        None
    } else if s[0] == c {
        Some(0)
    } else {
        match index_of(s.drop_first(), c) {
            Some(i) => Some(i + 1),
            None => None,
        }
    }
}

/// A line that ended with `\n`, with one `\r` before it dropped.
pub open spec fn strip_cr(line: Seq<char>) -> Seq<char> {
    if line.len() > 0 && line.last() == '\r' {
        line.drop_last()
    } else {
        line
    }
}

/// What `str::lines` yields: the text split at each `\n`, a `\r` right
/// before it dropped, and no empty line after a final `\n`.
pub open spec fn lines(s: Seq<char>) -> Seq<Seq<char>>
    decreases s.len(),
{
    if s.len() == 0 {
        Seq::empty()
    } else {
        proof {
            lemma_index_of(s, '\n');
        }
        match index_of(s, '\n') {
            None => seq![s],
            Some(i) => seq![strip_cr(s.take(i))] + lines(s.skip(i + 1)),
        }
    }
}

/// The value of `key` in a status file: the text after the first `=` of the
/// last line whose text before its first `=` is `key`.
pub open spec fn status_value(ls: Seq<Seq<char>>, key: Seq<char>) -> Option<Seq<char>>
    decreases ls.len(),
{
    if ls.len() == 0 {
        None
    } else {
        let l = ls.last();
        match index_of(l, '=') {
            Some(i) => if l.take(i) == key {
                Some(l.skip(i + 1))
            } else {
                status_value(ls.drop_last(), key)
            },
            None => status_value(ls.drop_last(), key),
        }
    }
}

/// The value of `key` in a previous status file, empty when absent.
pub open spec fn previous_value(contents: Option<Seq<char>>, key: Seq<char>) -> Seq<char> {
    match contents {
        Some(c) => match status_value(lines(c), key) {
            Some(v) => v,
            None => Seq::empty(),
        },
        None => Seq::empty(),
    }
}

pub proof fn lemma_index_of(s: Seq<char>, c: char)
    ensures
        match index_of(s, c) {
            Some(i) => 0 <= i < s.len() && s[i] == c && forall|j: int|
                0 <= j < i ==> s[j] != c,
            None => forall|j: int| 0 <= j < s.len() ==> s[j] != c,
        },
    decreases s.len(),
{
    if s.len() > 0 && s[0] != c {
        lemma_index_of(s.drop_first(), c);
        match index_of(s.drop_first(), c) {
            Some(i) => {
                assert forall|j: int| 0 <= j < i + 1 implies s[j] != c by {
                    if j > 0 {
                        assert(s[j] == s.drop_first()[j - 1]);
                    }
                }
            },
            None => {
                assert forall|j: int| 0 <= j < s.len() implies s[j] != c by {
                    if j > 0 {
                        assert(s[j] == s.drop_first()[j - 1]);
                    }
                }
            },
        }
    }
}

proof fn lemma_index_of_is(s: Seq<char>, c: char, i: int)
    requires
        0 <= i < s.len(),
        s[i] == c,
        forall|j: int| 0 <= j < i ==> s[j] != c,
    ensures
        index_of(s, c) == Some(i),
    decreases s.len(),
{
    if i > 0 {
        assert forall|j: int| 0 <= j < i - 1 implies s.drop_first()[j] != c by {
            assert(s.drop_first()[j] == s[j + 1]);
        }
        lemma_index_of_is(s.drop_first(), c, i - 1);
    }
}

proof fn lemma_index_of_none(s: Seq<char>, c: char)
    requires
        forall|j: int| 0 <= j < s.len() ==> s[j] != c,
    ensures
        index_of(s, c) is None,
{
    lemma_index_of(s, c);
}

/// Splits text into lines as `str::lines` does.
pub fn split_lines(s: &Vec<char>) -> (r: Vec<Vec<char>>)
    ensures
        r@.map_values(|l: Vec<char>| l@) == lines(s@),
{
    let mut out: Vec<Vec<char>> = Vec::new();
    let mut start: usize = 0;
    let mut i: usize = 0;
    let ghost all = s@;
    assert(all.skip(0) =~= all);
    assert(out@.map_values(|l: Vec<char>| l@) + lines(all.skip(0)) =~= lines(all));
    while i < s.len()
        invariant
            start <= i <= s.len(),
            all == s@,
            forall|j: int| start <= j < i ==> s@[j] != '\n',
            lines(all) == out@.map_values(|l: Vec<char>| l@) + lines(all.skip(start as int)),
        decreases s.len() - i,
    {
        if s[i] == '\n' {
            let ghost rest = all.skip(start as int);
            proof {
                assert forall|j: int| 0 <= j < i - start implies rest[j] != '\n' by {
                    assert(rest[j] == s@[start + j]);
                }
                assert(rest[i - start] == '\n');
                lemma_index_of_is(rest, '\n', i - start);
                assert(rest.skip(i - start + 1) =~= all.skip(i as int + 1));
            }
            let mut line: Vec<char> = Vec::new();
            let mut k: usize = start;
            while k < i
                invariant
                    start <= k <= i,
                    i < s.len(),
                    line@ == s@.subrange(start as int, k as int),
                decreases i - k,
            {
                line.push(s[k]);
                assert(s@.subrange(start as int, k as int + 1) =~= s@.subrange(
                    start as int,
                    k as int,
                ).push(s@[k as int]));
                k = k + 1;
            }
            assert(line@ =~= rest.take(i - start));
            if line.len() > 0 && line[line.len() - 1] == '\r' {
                line.pop();
            }
            let ghost before = out@;
            out.push(line);
            assert(out@.map_values(|l: Vec<char>| l@) =~= before.map_values(|l: Vec<char>| l@)
                + seq![strip_cr(rest.take(i - start))]);
            start = i + 1;
        }
        i = i + 1;
    }
    let ghost rest = all.skip(start as int);
    if start < s.len() {
        proof {
            assert forall|j: int| 0 <= j < rest.len() implies rest[j] != '\n' by {
                assert(rest[j] == s@[start + j]);
            }
            lemma_index_of_none(rest, '\n');
        }
        let mut line: Vec<char> = Vec::new();
        let mut k: usize = start;
        while k < s.len()
            invariant
                start <= k <= s.len(),
                line@ == s@.subrange(start as int, k as int),
            decreases s.len() - k,
        {
            line.push(s[k]);
            assert(s@.subrange(start as int, k as int + 1) =~= s@.subrange(start as int, k as int).push(
                s@[k as int],
            ));
            k = k + 1;
        }
        assert(line@ =~= rest);
        let ghost before = out@;
        out.push(line);
        assert(out@.map_values(|l: Vec<char>| l@) =~= before.map_values(|l: Vec<char>| l@)
            + seq![rest]);
    } else {
        assert(rest.len() == 0);
        assert(out@.map_values(|l: Vec<char>| l@) + lines(rest) =~= out@.map_values(
            |l: Vec<char>| l@,
        ));
    }
    out
}

/// The position of the first `=`.
fn find_equals(l: &Vec<char>) -> (r: Option<usize>)
    ensures
        match r {
            Some(i) => index_of(l@, '=') == Some(i as int) && i < l@.len(),
            None => index_of(l@, '=') is None,
        },
{
    let mut i: usize = 0;
    while i < l.len()
        invariant
            i <= l.len(),
            forall|j: int| 0 <= j < i ==> l@[j] != '=',
        decreases l.len() - i,
    {
        if l[i] == '=' {
            proof {
                lemma_index_of_is(l@, '=', i as int);
            }
            return Some(i);
        }
        i = i + 1;
    }
    proof {
        lemma_index_of_none(l@, '=');
    }
    None
}

fn chars_range(v: &Vec<char>, from: usize, to: usize) -> (r: Vec<char>)
    requires
        from <= to <= v.len(),
    ensures
        r@ == v@.subrange(from as int, to as int),
{
    let mut r: Vec<char> = Vec::new();
    let mut k: usize = from;
    while k < to
        invariant
            from <= k <= to,
            to <= v.len(),
            r@ == v@.subrange(from as int, k as int),
        decreases to - k,
    {
        r.push(v[k]);
        assert(v@.subrange(from as int, k as int + 1) =~= v@.subrange(from as int, k as int).push(
            v@[k as int],
        ));
        k = k + 1;
    }
    r
}

fn chars_eq(a: &Vec<char>, b: &Vec<char>) -> (r: bool)
    ensures
        r == (a@ == b@),
{
    if a.len() != b.len() {
        return false;
    }
    let mut i: usize = 0;
    while i < a.len()
        invariant
            a.len() == b.len(),
            i <= a.len(),
            forall|j: int| 0 <= j < i ==> a@[j] == b@[j],
        decreases a.len() - i,
    {
        if a[i] != b[i] {
            return false;
        }
        i = i + 1;
    }
    assert(a@ =~= b@);
    true
}

/// The value of `key` in a status file's text: the text after the first
/// `=` of the last line naming it, empty when no line does.
pub fn read_status_value(contents: &str, key: &str) -> (r: String)
    ensures
        r@ == previous_value(Some(contents@), key@),
{
    let chars = chars_of(contents);
    let ls = split_lines(&chars);
    let key_chars = chars_of(key);
    let ghost lv = ls@.map_values(|l: Vec<char>| l@);
    let mut k: usize = ls.len();
    assert(lv.take(k as int) =~= lv);
    while k > 0
        invariant
            k <= ls.len(),
            lv == ls@.map_values(|l: Vec<char>| l@),
            lv == lines(contents@),
            key_chars@ == key@,
            status_value(lv, key@) == status_value(lv.take(k as int), key@),
        decreases k,
    {
        let l = &ls[k - 1];
        let ghost t = lv.take(k as int);
        assert(t.last() == l@);
        assert(t.drop_last() =~= lv.take(k as int - 1));
        if let Some(i) = find_equals(l) {
            let head = chars_range(l, 0, i);
            assert(head@ =~= l@.take(i as int));
            if chars_eq(&head, &key_chars) {
                let value = chars_range(l, i + 1, l.len());
                assert(value@ =~= l@.skip(i as int + 1));
                return string_from_chars(&value);
            }
        }
        k = k - 1;
    }
    String::new()
}

/// Appends `name=value` and a line break.
fn push_kv_line(out: &mut String, name: &str, value: &str)
    ensures
        final(out)@ == old(out)@ + kv(name@, value@) + seq!['\n'],
{
    let ghost start = out@;
    push_str(out, name);
    push_char(out, '=');
    push_str(out, value);
    push_char(out, '\n');
    assert(out@ =~= start + kv(name@, value@) + seq!['\n']);
}

/// Appends `name=` and a number, and a line break.
fn push_kv_decimal(out: &mut String, name: &str, value: u64)
    ensures
        final(out)@ == old(out)@ + kv(name@, decimal(value as nat)) + seq!['\n'],
{
    let ghost start = out@;
    push_str(out, name);
    push_char(out, '=');
    push_decimal(out, value);
    push_char(out, '\n');
    assert(out@ =~= start + kv(name@, decimal(value as nat)) + seq!['\n']);
}

/// The message with its line breaks replaced by spaces.
fn one_line_text(message: &str) -> (r: String)
    ensures
        r@ == one_line(message@),
{
    let m = chars_of(message);
    let mut s = String::new();
    let mut i: usize = 0;
    while i < m.len()
        invariant
            i <= m.len(),
            m@ == message@,
            s@ == one_line(m@.take(i as int)),
        decreases m.len() - i,
    {
        let c = m[i];
        push_char(&mut s, if c == '\n' || c == '\r' { ' ' } else { c });
        assert(one_line(m@.take(i as int + 1)) =~= one_line(m@.take(i as int)).push(
            if c == '\n' || c == '\r' { ' ' } else { c },
        ));
        i = i + 1;
    }
    assert(m@.take(m.len() as int) =~= m@);
    s
}

/// One more line of a `name=value` text.
proof fn lemma_kv_lines_step(pairs: Seq<(Seq<char>, Seq<char>)>, k: int, text: Seq<char>)
    requires
        0 <= k < pairs.len(),
        text == kv_lines(pairs.take(k)) + kv(pairs[k].0, pairs[k].1) + seq!['\n'],
    ensures
        text == kv_lines(pairs.take(k + 1)),
{
    assert(pairs.take(k + 1).drop_last() =~= pairs.take(k));
    assert(pairs.take(k + 1).last() == pairs[k]);
}

/// The tracker of one sync run's status file.  It keeps the run's start
/// time and the previous success and failure times, which a run carries
/// over.
#[derive(Debug, Clone)]
pub struct StatusTracker {
    pub last_run_at: String,
    pub previous_success_at: String,
    pub previous_failure_at: String,
}

impl StatusTracker {
    /// Starts tracking a run that began at `now`, carrying over
    /// `last_success_at` and `last_failure_at` from the previous status file
    /// (`None` when there is none).  Returns the tracker and the `running`
    /// status to write.
    pub fn start(previous: Option<&str>, now: String) -> (r: (StatusTracker, String))
        ensures
            r.0.last_run_at@ == now@,
            r.0.previous_success_at@ == previous_value(
                match previous {
                    Some(p) => Some(p@),
                    None => None,
                },
                "last_success_at"@,
            ),
            r.0.previous_failure_at@ == previous_value(
                match previous {
                    Some(p) => Some(p@),
                    None => None,
                },
                "last_failure_at"@,
            ),
            r.1@ == status_text(
                "running"@,
                now@,
                r.0.previous_success_at@,
                r.0.previous_failure_at@,
                "sync running"@,
                SyncReport { new: 0, healed: 0, skipped: 0, failed: 0 },
            ),
    {
        let (success, failure) = match previous {
            Some(p) => (read_status_value(p, "last_success_at"), read_status_value(p, "last_failure_at")),
            None => (String::new(), String::new()),
        };
        let tracker = StatusTracker {
            last_run_at: now,
            previous_success_at: success,
            previous_failure_at: failure,
        };
        let contents = tracker.write(
            "running",
            tracker.previous_success_at.as_str(),
            tracker.previous_failure_at.as_str(),
            "sync running",
            SyncReport::empty(),
        );
        (tracker, contents)
    }

    /// The status at the end of a run that finished at `now`: `success` when
    /// no Call failed (the success time moves to `now`), `partial` otherwise
    /// (the failure time moves to `now`).
    pub fn finish(&self, report: SyncReport, message: &str, now: &str) -> (r: String)
        ensures
            report.failed == 0 ==> r@ == status_text(
                "success"@,
                self.last_run_at@,
                now@,
                self.previous_failure_at@,
                message@,
                report,
            ),
            report.failed != 0 ==> r@ == status_text(
                "partial"@,
                self.last_run_at@,
                self.previous_success_at@,
                now@,
                message@,
                report,
            ),
    {
        if report.failed == 0 {
            self.write("success", now, self.previous_failure_at.as_str(), message, report)
        } else {
            self.write("partial", self.previous_success_at.as_str(), now, message, report)
        }
    }

    /// The status of a run that failed before any Call could be attempted.
    pub fn finish_failure(&self, report: SyncReport, message: &str, now: &str) -> (r: String)
        ensures
            r@ == status_text(
                "failure"@,
                self.last_run_at@,
                self.previous_success_at@,
                now@,
                message@,
                report,
            ),
    {
        self.write("failure", self.previous_success_at.as_str(), now, message, report)
    }

    /// The contents of the status file.
    pub fn write(
        &self,
        state: &str,
        success_at: &str,
        failure_at: &str,
        message: &str,
        report: SyncReport,
    ) -> (r: String)
        ensures
            r@ == status_text(
                state@,
                self.last_run_at@,
                success_at@,
                failure_at@,
                message@,
                report,
            ),
    {
        let ghost pairs = status_pairs(
            state@,
            self.last_run_at@,
            success_at@,
            failure_at@,
            message@,
            report,
        );
        let mut s = String::new();
        assert(s@ =~= kv_lines(pairs.take(0)));
        push_kv_line(&mut s, "last_state", state);
        proof {
            lemma_kv_lines_step(pairs, 0, s@);
        }
        push_kv_line(&mut s, "last_run_at", self.last_run_at.as_str());
        proof {
            lemma_kv_lines_step(pairs, 1, s@);
        }
        push_kv_line(&mut s, "last_success_at", success_at);
        proof {
            lemma_kv_lines_step(pairs, 2, s@);
        }
        push_kv_line(&mut s, "last_failure_at", failure_at);
        proof {
            lemma_kv_lines_step(pairs, 3, s@);
        }
        let m = one_line_text(message);
        push_kv_line(&mut s, "last_message", m.as_str());
        proof {
            lemma_kv_lines_step(pairs, 4, s@);
        }
        push_kv_decimal(&mut s, "new", report.new as u64);
        proof {
            lemma_kv_lines_step(pairs, 5, s@);
        }
        push_kv_decimal(&mut s, "healed", report.healed as u64);
        proof {
            lemma_kv_lines_step(pairs, 6, s@);
        }
        push_kv_decimal(&mut s, "skipped", report.skipped as u64);
        proof {
            lemma_kv_lines_step(pairs, 7, s@);
        }
        push_kv_decimal(&mut s, "failed", report.failed as u64);
        proof {
            lemma_kv_lines_step(pairs, 8, s@);
        }
        assert(pairs.take(9) =~= pairs);
        s
    }
}

// ---------------------------------------------------------------------------
// Reading back what was written.

/// Text with no line break and no carriage return.
pub open spec fn unbroken(s: Seq<char>) -> bool {
    forall|i: int| 0 <= i < s.len() ==> s[i] != '\n' && s[i] != '\r'
}

/// Splitting text that starts with whole lines splits those lines off first.
pub proof fn lemma_lines_append(a: Seq<char>, b: Seq<char>)
    requires
        a.len() == 0 || a.last() == '\n',
    ensures
        lines(a + b) == lines(a) + lines(b),
    decreases a.len(),
{
    if a.len() == 0 {
        assert(a + b =~= b);
        assert(lines(a) + lines(b) =~= lines(b));
    } else {
        lemma_index_of(a, '\n');
        let i = index_of(a, '\n')->0;
        let s = a + b;
        assert forall|j: int| 0 <= j < i implies s[j] != '\n' by {
            assert(s[j] == a[j]);
        }
        lemma_index_of_is(s, '\n', i);
        assert(s.take(i) =~= a.take(i));
        assert(s.skip(i + 1) =~= a.skip(i + 1) + b);
        let rest = a.skip(i + 1);
        assert(rest.len() == 0 || rest.last() == a.last());
        lemma_lines_append(rest, b);
        assert(lines(a + b) =~= seq![strip_cr(a.take(i))] + lines(rest + b));
        assert(lines(a) =~= seq![strip_cr(a.take(i))] + lines(rest));
        assert(lines(a) + lines(b) =~= seq![strip_cr(a.take(i))] + (lines(rest) + lines(b)));
    }
}

/// A line without breaks, then a line break, splits off as that line.
pub proof fn lemma_lines_line(l: Seq<char>, rest: Seq<char>)
    requires
        unbroken(l),
    ensures
        lines(l + seq!['\n'] + rest) == seq![l] + lines(rest),
{
    let s = l + seq!['\n'] + rest;
    assert forall|j: int| 0 <= j < l.len() implies s[j] != '\n' by {
        assert(s[j] == l[j]);
    }
    lemma_index_of_is(s, '\n', l.len() as int);
    assert(s.take(l.len() as int) =~= l);
    assert(s.skip(l.len() as int + 1) =~= rest);
    assert(strip_cr(l) == l);
}

/// The value of the last line is the value of its key when the key matches.
pub proof fn lemma_status_value_last(ls: Seq<Seq<char>>, name: Seq<char>, value: Seq<char>, key: Seq<
    char,
>)
    requires
        forall|i: int| 0 <= i < name.len() ==> name[i] != '=',
    ensures
        status_value(ls.push(kv(name, value)), key) == if name == key {
            Some(value)
        } else {
            status_value(ls, key)
        },
{
    let l = kv(name, value);
    assert(l[name.len() as int] == '=');
    assert forall|j: int| 0 <= j < name.len() implies l[j] != '=' by {
        assert(l[j] == name[j]);
    }
    lemma_index_of_is(l, '=', name.len() as int);
    assert(l.take(name.len() as int) =~= name);
    assert(l.skip(name.len() as int + 1) =~= value);
    assert(ls.push(l).last() == l);
    assert(ls.push(l).drop_last() =~= ls);
}

/// A decimal numeral holds no line break.
pub proof fn lemma_decimal_unbroken(n: nat)
    ensures
        unbroken(decimal(n)),
{
    lemma_decimal_digits(n);
    assert forall|i: int| 0 <= i < decimal(n).len() implies decimal(n)[i] != '\n' && decimal(
        n,
    )[i] != '\r' by {
        assert('0' <= decimal(n)[i] <= '9');
    }
}

/// Names without `=` and line breaks, and values without line breaks.
pub open spec fn plain_pairs(pairs: Seq<(Seq<char>, Seq<char>)>) -> bool {
    forall|k: int|
        0 <= k < pairs.len() ==> {
            &&& unbroken(#[trigger] pairs[k].0)
            &&& unbroken(pairs[k].1)
            &&& forall|i: int| 0 <= i < pairs[k].0.len() ==> pairs[k].0[i] != '='
        }
}

/// Concatenated pair lists give concatenated texts.
proof fn lemma_kv_lines_append(a: Seq<(Seq<char>, Seq<char>)>, b: Seq<(Seq<char>, Seq<char>)>)
    ensures
        kv_lines(a + b) == kv_lines(a) + kv_lines(b),
    decreases b.len(),
{
    if b.len() == 0 {
        assert(a + b =~= a);
        assert(kv_lines(a) + kv_lines(b) =~= kv_lines(a));
    } else {
        assert((a + b).drop_last() =~= a + b.drop_last());
        assert((a + b).last() == b.last());
        lemma_kv_lines_append(a, b.drop_last());
        assert(kv_lines(a + b) =~= kv_lines(a) + kv_lines(b));
    }
}

/// The lines of `name=value` lines are those `name=value` texts.
proof fn lemma_kv_lines(before: Seq<char>, pairs: Seq<(Seq<char>, Seq<char>)>)
    requires
        before.len() == 0 || before.last() == '\n',
        plain_pairs(pairs),
    ensures
        lines(before + kv_lines(pairs)) == lines(before) + pairs.map_values(
            |p: (Seq<char>, Seq<char>)| kv(p.0, p.1),
        ),
    decreases pairs.len(),
{
    if pairs.len() == 0 {
        assert(before + kv_lines(pairs) =~= before);
        assert(lines(before) + pairs.map_values(|p: (Seq<char>, Seq<char>)| kv(p.0, p.1))
            =~= lines(before));
    } else {
        let init = pairs.drop_last();
        let p = pairs.last();
        let l = kv(p.0, p.1);
        assert(unbroken(l)) by {
            assert(pairs[pairs.len() - 1] == p);
            assert(unbroken(p.0) && unbroken(p.1));
        }
        assert(plain_pairs(init)) by {
            assert forall|k: int| 0 <= k < init.len() implies {
                &&& unbroken(#[trigger] init[k].0)
                &&& unbroken(init[k].1)
                &&& forall|i: int| 0 <= i < init[k].0.len() ==> init[k].0[i] != '='
            } by {
                assert(init[k] == pairs[k]);
            }
        }
        lemma_kv_lines(before, init);
        let x = before + kv_lines(init);
        assert(x.len() == 0 || x.last() == '\n') by {
            if init.len() > 0 {
                assert(kv_lines(init).last() == '\n');
                assert(x.last() == kv_lines(init).last());
            } else {
                assert(x =~= before);
            }
        }
        assert(before + kv_lines(pairs) =~= x + (l + seq!['\n']));
        lemma_lines_append(x, l + seq!['\n']);
        lemma_lines_line(l, Seq::empty());
        assert(l + seq!['\n'] + Seq::<char>::empty() =~= l + seq!['\n']);
        assert(lines(Seq::<char>::empty()) =~= Seq::<Seq<char>>::empty());
        assert(pairs.map_values(|q: (Seq<char>, Seq<char>)| kv(q.0, q.1)) =~= init.map_values(
            |q: (Seq<char>, Seq<char>)| kv(q.0, q.1),
        ).push(l));
        assert(lines(before + kv_lines(pairs)) =~= lines(before) + pairs.map_values(
            |q: (Seq<char>, Seq<char>)| kv(q.0, q.1),
        ));
    }
}

/// The value of the last pair named `key`.
pub open spec fn last_value(pairs: Seq<(Seq<char>, Seq<char>)>, key: Seq<char>) -> Option<Seq<char>>
    decreases pairs.len(),
{
    if pairs.len() == 0 {
        None
    } else if pairs.last().0 == key {
        Some(pairs.last().1)
    } else {
        last_value(pairs.drop_last(), key)
    }
}

/// Looking a key up in lines that end with `name=value` lines finds the
/// last such line with that name first.
proof fn lemma_status_value_pairs(
    ls: Seq<Seq<char>>,
    pairs: Seq<(Seq<char>, Seq<char>)>,
    key: Seq<char>,
)
    requires
        plain_pairs(pairs),
    ensures
        status_value(ls + pairs.map_values(|p: (Seq<char>, Seq<char>)| kv(p.0, p.1)), key)
            == match last_value(pairs, key) {
            Some(v) => Some(v),
            None => status_value(ls, key),
        },
    decreases pairs.len(),
{
    if pairs.len() == 0 {
        assert(ls + pairs.map_values(|p: (Seq<char>, Seq<char>)| kv(p.0, p.1)) =~= ls);
    } else {
        let init = pairs.drop_last();
        let p = pairs.last();
        assert(plain_pairs(init)) by {
            assert forall|k: int| 0 <= k < init.len() implies {
                &&& unbroken(#[trigger] init[k].0)
                &&& unbroken(init[k].1)
                &&& forall|i: int| 0 <= i < init[k].0.len() ==> init[k].0[i] != '='
            } by {
                assert(init[k] == pairs[k]);
            }
        }
        assert(forall|i: int| 0 <= i < p.0.len() ==> p.0[i] != '=') by {
            assert(pairs[pairs.len() - 1] == p);
        }
        lemma_status_value_pairs(ls, init, key);
        let whole = ls + pairs.map_values(|q: (Seq<char>, Seq<char>)| kv(q.0, q.1));
        let part = ls + init.map_values(|q: (Seq<char>, Seq<char>)| kv(q.0, q.1));
        assert(whole =~= part.push(kv(p.0, p.1)));
        lemma_status_value_last(part, p.0, p.1, key);
    }
}

/// The status file hands its times to the next run: reading back the
/// `last_success_at` and `last_failure_at` of a status file gives the times
/// that were written there, for times without line breaks.  So a run's
/// tracker carries over exactly what the previous run recorded.
pub proof fn lemma_status_times_read_back(
    state: Seq<char>,
    run_at: Seq<char>,
    success_at: Seq<char>,
    failure_at: Seq<char>,
    message: Seq<char>,
    r: SyncReport,
)
    requires
        unbroken(success_at),
        unbroken(failure_at),
    ensures
        previous_value(
            Some(status_text(state, run_at, success_at, failure_at, message, r)),
            "last_success_at"@,
        ) == success_at,
        previous_value(
            Some(status_text(state, run_at, success_at, failure_at, message, r)),
            "last_failure_at"@,
        ) == failure_at,
{
    let all = status_pairs(state, run_at, success_at, failure_at, message, r);
    let head = all.take(2);
    let tail = all.skip(2);
    assert(all =~= head + tail);
    lemma_kv_lines_append(head, tail);
    let before = kv_lines(head);
    assert(before.last() == '\n');
    reveal_strlit("last_success_at");
    reveal_strlit("last_failure_at");
    reveal_strlit("last_message");
    reveal_strlit("new");
    reveal_strlit("healed");
    reveal_strlit("skipped");
    reveal_strlit("failed");
    lemma_decimal_unbroken(r.new as nat);
    lemma_decimal_unbroken(r.healed as nat);
    lemma_decimal_unbroken(r.skipped as nat);
    lemma_decimal_unbroken(r.failed as nat);
    assert(unbroken(one_line(message)));
    assert(plain_pairs(tail)) by {
        assert forall|k: int| 0 <= k < tail.len() implies {
            &&& unbroken(#[trigger] tail[k].0)
            &&& unbroken(tail[k].1)
            &&& forall|i: int| 0 <= i < tail[k].0.len() ==> tail[k].0[i] != '='
        } by {
            assert(tail[k] == all[k + 2]);
        }
    }
    lemma_kv_lines(before, tail);
    let s = "last_success_at"@;
    let f = "last_failure_at"@;
    assert(s[5] != f[5]);
    reveal_with_fuel(last_value, 8);
    assert(last_value(tail, s) == Some(success_at));
    assert(last_value(tail, f) == Some(failure_at));
    lemma_status_value_pairs(lines(before), tail, s);
    lemma_status_value_pairs(lines(before), tail, f);
}

/// The status file reads back the counts of the report it was written for:
/// its `new`, `healed`, `skipped` and `failed` values are the decimal
/// numerals of the report's counts, whatever the other entries hold.
pub proof fn lemma_status_counts_read_back(
    state: Seq<char>,
    run_at: Seq<char>,
    success_at: Seq<char>,
    failure_at: Seq<char>,
    message: Seq<char>,
    r: SyncReport,
)
    ensures
        previous_value(Some(status_text(state, run_at, success_at, failure_at, message, r)), "new"@)
            == decimal(r.new as nat),
        previous_value(
            Some(status_text(state, run_at, success_at, failure_at, message, r)),
            "healed"@,
        ) == decimal(r.healed as nat),
        previous_value(
            Some(status_text(state, run_at, success_at, failure_at, message, r)),
            "skipped"@,
        ) == decimal(r.skipped as nat),
        previous_value(
            Some(status_text(state, run_at, success_at, failure_at, message, r)),
            "failed"@,
        ) == decimal(r.failed as nat),
{
    let all = status_pairs(state, run_at, success_at, failure_at, message, r);
    let head = all.take(5);
    let tail = all.skip(5);
    assert(all =~= head + tail);
    lemma_kv_lines_append(head, tail);
    let before = kv_lines(head);
    assert(before.last() == '\n');
    reveal_strlit("new");
    reveal_strlit("healed");
    reveal_strlit("skipped");
    reveal_strlit("failed");
    lemma_decimal_unbroken(r.new as nat);
    lemma_decimal_unbroken(r.healed as nat);
    lemma_decimal_unbroken(r.skipped as nat);
    lemma_decimal_unbroken(r.failed as nat);
    assert(plain_pairs(tail)) by {
        assert forall|k: int| 0 <= k < tail.len() implies {
            &&& unbroken(#[trigger] tail[k].0)
            &&& unbroken(tail[k].1)
            &&& forall|i: int| 0 <= i < tail[k].0.len() ==> tail[k].0[i] != '='
        } by {
            assert(tail[k] == all[k + 5]);
        }
    }
    lemma_kv_lines(before, tail);
    let n = "new"@;
    let h = "healed"@;
    let sk = "skipped"@;
    let f = "failed"@;
    assert(h[0] != f[0]);
    assert(n.len() != h.len() && n.len() != sk.len() && n.len() != f.len());
    assert(sk.len() != h.len() && sk.len() != f.len());
    reveal_with_fuel(last_value, 5);
    assert(last_value(tail, n) == Some(decimal(r.new as nat)));
    assert(last_value(tail, h) == Some(decimal(r.healed as nat)));
    assert(last_value(tail, sk) == Some(decimal(r.skipped as nat)));
    assert(last_value(tail, f) == Some(decimal(r.failed as nat)));
    lemma_status_value_pairs(lines(before), tail, n);
    lemma_status_value_pairs(lines(before), tail, h);
    lemma_status_value_pairs(lines(before), tail, sk);
    lemma_status_value_pairs(lines(before), tail, f);
}

/// A numeral followed by text that starts with a non-digit splits there.
proof fn lemma_split_numeral(x: nat, y: nat, r1: Seq<char>, r2: Seq<char>)
    requires
        decimal(x) + r1 == decimal(y) + r2,
        r1.len() > 0 && !('0' <= r1[0] <= '9'),
        r2.len() > 0 && !('0' <= r2[0] <= '9'),
    ensures
        x == y,
        r1 == r2,
{
    let (dx, dy) = (decimal(x), decimal(y));
    let t = dx + r1;
    lemma_decimal_digits(x);
    lemma_decimal_digits(y);
    if dx.len() < dy.len() {
        assert(t[dx.len() as int] == r1[0]);
        assert((dy + r2)[dx.len() as int] == dy[dx.len() as int]);
    } else if dy.len() < dx.len() {
        assert((dy + r2)[dy.len() as int] == r2[0]);
        assert(t[dy.len() as int] == dx[dy.len() as int]);
    }
    assert(dx =~= t.take(dx.len() as int));
    assert(dy =~= (dy + r2).take(dy.len() as int));
    lemma_decimal_injective(x, y);
    assert(r1 =~= t.skip(dx.len() as int));
    assert(r2 =~= (dy + r2).skip(dy.len() as int));
}

/// The summary line holds no line break.
proof fn lemma_summary_unbroken(a: SyncReport)
    ensures
        unbroken(summary_text(a)),
{
    reveal_strlit("synced ");
    reveal_strlit(" new, healed ");
    reveal_strlit(", skipped ");
    reveal_strlit(", failed ");
    let (p1, p2, p3, p4) = ("synced "@, " new, healed "@, ", skipped "@, ", failed "@);
    let (d1, d2, d3, d4) = (
        decimal(a.new as nat),
        decimal(a.healed as nat),
        decimal(a.skipped as nat),
        decimal(a.failed as nat),
    );
    lemma_decimal_unbroken(a.new as nat);
    lemma_decimal_unbroken(a.healed as nat);
    lemma_decimal_unbroken(a.skipped as nat);
    lemma_decimal_unbroken(a.failed as nat);
    assert(unbroken(p1) && unbroken(p2) && unbroken(p3) && unbroken(p4));
    lemma_unbroken_concat(p1, d1);
    lemma_unbroken_concat(p1 + d1, p2);
    lemma_unbroken_concat(p1 + d1 + p2, d2);
    lemma_unbroken_concat(p1 + d1 + p2 + d2, p3);
    lemma_unbroken_concat(p1 + d1 + p2 + d2 + p3, d3);
    lemma_unbroken_concat(p1 + d1 + p2 + d2 + p3 + d3, p4);
    lemma_unbroken_concat(p1 + d1 + p2 + d2 + p3 + d3 + p4, d4);
}

spec fn summary_tail3(r: SyncReport) -> Seq<char> {
    ", failed "@ + decimal(r.failed as nat)
}

spec fn summary_tail2(r: SyncReport) -> Seq<char> {
    ", skipped "@ + (decimal(r.skipped as nat) + summary_tail3(r))
}

spec fn summary_tail1(r: SyncReport) -> Seq<char> {
    " new, healed "@ + (decimal(r.healed as nat) + summary_tail2(r))
}

proof fn lemma_summary_shape(r: SyncReport)
    ensures
        summary_text(r) == "synced "@ + (decimal(r.new as nat) + summary_tail1(r)),
{
    assert(summary_text(r) =~= "synced "@ + (decimal(r.new as nat) + summary_tail1(r)));
}

/// The same text before two tails leaves equal tails.
proof fn lemma_strip_prefix(p: Seq<char>, u: Seq<char>, v: Seq<char>)
    requires
        p + u == p + v,
    ensures
        u == v,
{
    assert(u =~= (p + u).skip(p.len() as int));
    assert(v =~= (p + v).skip(p.len() as int));
}

/// Equal summary lines come from equal counts.
proof fn lemma_summary_injective(a: SyncReport, b: SyncReport)
    requires
        summary_text(a) == summary_text(b),
    ensures
        a.new == b.new && a.healed == b.healed && a.skipped == b.skipped && a.failed == b.failed,
{
    reveal_strlit(" new, healed ");
    reveal_strlit(", skipped ");
    reveal_strlit(", failed ");
    assert(" new, healed "@[0] == ' ' && ", skipped "@[0] == ',' && ", failed "@[0] == ',');
    lemma_summary_shape(a);
    lemma_summary_shape(b);
    lemma_strip_prefix("synced "@, decimal(a.new as nat) + summary_tail1(a), decimal(b.new as nat) + summary_tail1(b));
    lemma_split_numeral(a.new as nat, b.new as nat, summary_tail1(a), summary_tail1(b));
    lemma_strip_prefix(" new, healed "@, decimal(a.healed as nat) + summary_tail2(a), decimal(b.healed as nat) + summary_tail2(b));
    lemma_split_numeral(a.healed as nat, b.healed as nat, summary_tail2(a), summary_tail2(b));
    lemma_strip_prefix(", skipped "@, decimal(a.skipped as nat) + summary_tail3(a), decimal(b.skipped as nat) + summary_tail3(b));
    lemma_split_numeral(a.skipped as nat, b.skipped as nat, summary_tail3(a), summary_tail3(b));
    lemma_strip_prefix(", failed "@, decimal(a.failed as nat), decimal(b.failed as nat));
    lemma_decimal_injective(a.failed as nat, b.failed as nat);
}

/// The summary line is one line, and it reads back to its four counts: two
/// reports give the same line exactly when their counts agree.
pub proof fn lemma_summary_reads_back(a: SyncReport, b: SyncReport)
    ensures
        unbroken(summary_text(a)),
        summary_text(a) == summary_text(b) <==> (a.new == b.new && a.healed == b.healed && a.skipped
            == b.skipped && a.failed == b.failed),
{
    lemma_summary_unbroken(a);
    if summary_text(a) == summary_text(b) {
        lemma_summary_injective(a, b);
    }
}

/// Text without line breaks joined to text without line breaks has none.
proof fn lemma_unbroken_concat(x: Seq<char>, y: Seq<char>)
    requires
        unbroken(x),
        unbroken(y),
    ensures
        unbroken(x + y),
{
    assert forall|i: int| 0 <= i < (x + y).len() implies (x + y)[i] != '\n' && (x + y)[i] != '\r' by {
        if i < x.len() {
            assert((x + y)[i] == x[i]);
        } else {
            assert((x + y)[i] == y[i - x.len()]);
        }
    }
}

} // verus!

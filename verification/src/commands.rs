//! What the commands compute between their requests and their output: the
//! rows and table of `list`, the permission verdict of `check`, the order of
//! steps and the confirmation answer of `sync`, and the log level.
use vstd::prelude::*;
use crate::api::{spec_account_name, ExtensiveCall};
use crate::dates::{date_text, parse_rfc3339, push_date, spec_parse_rfc3339};
use crate::renderer::{ascii_lower, ascii_lower_exec};
use crate::sync::{count_tally, select_customer, SyncPlan, Tally};
use crate::text::{chars_of, decimal, push_char, push_decimal, push_str, push_two_digits, trim,
    trim_chars, zero_pad};

verus! {

// ---------------------------------------------------------------------------
// `list`.

/// One row of `list`: the Call's id, title and start as Gong sent them, its
/// length in whole minutes, and its Account name (empty without one).
#[derive(Debug, Clone)]
pub struct ListRow {
    pub id: String,
    pub title: String,
    pub started: String,
    pub duration_minutes: u64,
    pub account: String,
}

/// The Account name of a Call, empty when it has none.
pub open spec fn account_or_empty(call: ExtensiveCall) -> Seq<char> {
    match spec_account_name(call) {
        Some(a) => a,
        None => Seq::empty(),
    }
}

/// Whether `row` is the `list` row of `call`.
pub open spec fn is_row_of(row: ListRow, call: ExtensiveCall) -> bool {
    &&& row.id@ == call.metadata.id@
    &&& row.title@ == call.metadata.title@
    &&& row.started@ == call.metadata.started@
    &&& row.duration_minutes == call.metadata.duration / 60
    &&& row.account@ == account_or_empty(call)
}

/// The `list` row of a Call.
pub fn list_row(call: &ExtensiveCall) -> (r: ListRow)
    ensures
        is_row_of(r, *call),
{
    let account = match call.account_name() {
        Some(a) => a.to_owned(),
        None => String::new(),
    };
    ListRow {
        id: call.metadata.id.clone(),
        title: call.metadata.title.clone(),
        started: call.metadata.started.clone(),
        duration_minutes: call.metadata.duration / 60,
        account,
    }
}

/// The rows of `list`: one per Customer Call, in the order Gong listed them.
/// Calls whose Parties are all Internal are left out.
pub fn list_rows(calls: &Vec<ExtensiveCall>) -> (r: Vec<ListRow>)
    ensures
        r.len() == select_customer(calls@).len(),
        forall|i: int| 0 <= i < r.len() ==> is_row_of(#[trigger] r@[i], select_customer(calls@)[i]),
{
    let mut rows: Vec<ListRow> = Vec::new();
    let mut i: usize = 0;
    while i < calls.len()
        invariant
            i <= calls.len(),
            rows.len() == select_customer(calls@.take(i as int)).len(),
            forall|k: int|
                0 <= k < rows.len() ==> is_row_of(
                    #[trigger] rows@[k],
                    select_customer(calls@.take(i as int))[k],
                ),
        decreases calls.len() - i,
    {
        let ghost prev = calls@.take(i as int);
        assert(calls@.take(i as int + 1).drop_last() =~= prev);
        assert(calls@.take(i as int + 1).last() == calls@[i as int]);
        if calls[i].is_customer_call() {
            let row = list_row(&calls[i]);
            rows.push(row);
            assert(select_customer(calls@.take(i as int + 1)) == select_customer(prev).push(
                calls@[i as int],
            ));
        }
        i = i + 1;
    }
    assert(calls@.take(calls.len() as int) =~= calls@);
    rows
}

/// The date and time columns of a row: the start's own date and `HH:MM`
/// when it parses as RFC 3339, else the start as sent and an empty time.
pub open spec fn started_columns(started: Seq<char>) -> (Seq<char>, Seq<char>) {
    match spec_parse_rfc3339(started) {
        Some(t) => (
            date_text(t.date),
            zero_pad(decimal(t.hour as nat), 2) + seq![':'] + zero_pad(decimal(t.minute as nat), 2),
        ),
        None => (started, Seq::empty()),
    }
}

/// One tab-separated line of the `list` table.
pub open spec fn table_line(row: ListRow) -> Seq<char> {
    let cols = started_columns(row.started@);
    cols.0 + seq!['\t'] + cols.1 + seq!['\t'] + row.id@ + seq!['\t'] + row.title@ + seq!['\t']
        + row.account@ + seq!['\n']
}

/// The lines of the `list` table.
pub open spec fn table_lines(rows: Seq<ListRow>) -> Seq<char>
    decreases rows.len(),
{
    if rows.len() == 0 {
        Seq::empty()
    } else {
        table_lines(rows.drop_last()) + table_line(rows.last())
    }
}

/// The header of the `list` table.
pub open spec fn table_header() -> Seq<char> {
    "DATE\tTIME\tID\tTITLE\tACCOUNT\n"@
}

/// Appends one line of the `list` table.
fn push_table_line(out: &mut String, row: &ListRow)
    ensures
        final(out)@ == old(out)@ + table_line(*row),
{
    let ghost start = out@;
    match parse_rfc3339(row.started.as_str()) {
        Some(t) => {
            push_date(out, t.date);
            push_char(out, '\t');
            push_two_digits(out, t.hour as u64);
            push_char(out, ':');
            push_two_digits(out, t.minute as u64);
        },
        None => {
            push_str(out, row.started.as_str());
            push_char(out, '\t');
        },
    }
    push_char(out, '\t');
    push_str(out, row.id.as_str());
    push_char(out, '\t');
    push_str(out, row.title.as_str());
    push_char(out, '\t');
    push_str(out, row.account.as_str());
    push_char(out, '\n');
    assert(out@ =~= start + table_line(*row));
}

/// The human `list` table: a header, then one line per row
/// with the start's date and time, id, title and Account.
pub fn table_text(rows: &Vec<ListRow>) -> (r: String)
    ensures
        r@ == table_header() + table_lines(rows@),
{
    let mut out = String::new();
    push_str(&mut out, "DATE\tTIME\tID\tTITLE\tACCOUNT\n");
    let mut i: usize = 0;
    while i < rows.len()
        invariant
            i <= rows.len(),
            out@ == table_header() + table_lines(rows@.take(i as int)),
        decreases rows.len() - i,
    {
        assert(rows@.take(i as int + 1).drop_last() =~= rows@.take(i as int));
        push_table_line(&mut out, &rows[i]);
        assert(out@ =~= table_header() + table_lines(rows@.take(i as int + 1)));
        i = i + 1;
    }
    assert(rows@.take(rows.len() as int) =~= rows@);
    out
}

// ---------------------------------------------------------------------------
// `check`.

/// The verdict on the config file's mode bits: a warning when the group or
/// others may read it, else a pass.
pub open spec fn permission_text(mode: u32, path: Seq<char>) -> Seq<char> {
    if mode & 0o077u32 != 0 {
        "[WARN] config permissions: "@ + path
            + " is readable by group or others; run chmod 600 "@ + path
    } else {
        "[PASS] config permissions: owner-only"@
    }
}

/// The line `check` prints about the config file's permissions.  A
/// permissive mode is a warning, never a failure.
pub fn report_permissions(mode: u32, path: &str) -> (r: String)
    ensures
        r@ == permission_text(mode, path@),
{
    let mut out = String::new();
    if mode & 0o077u32 != 0 {
        push_str(&mut out, "[WARN] config permissions: ");
        push_str(&mut out, path);
        push_str(&mut out, " is readable by group or others; run chmod 600 ");
        push_str(&mut out, path);
    } else {
        push_str(&mut out, "[PASS] config permissions: owner-only");
    }
    out
}

// ---------------------------------------------------------------------------
// `sync`.

/// What `sync` does once it holds a plan.
#[derive(Debug, Clone, Copy, PartialEq, Eq, Structural)]
pub enum SyncStep {
    /// `--dry-run`: report the planned actions and write nothing.
    Preview,
    /// `--force` without `--yes`: ask before overwriting.
    Confirm,
    /// Fetch, render and write.
    Execute,
}

/// The step after planning: a dry run previews, a forced run without `--yes`
/// asks first, any other run executes.
pub fn sync_step(dry_run: bool, force: bool, yes: bool) -> (r: SyncStep)
    ensures
        r == (if dry_run {
            SyncStep::Preview
        } else if force && !yes {
            SyncStep::Confirm
        } else {
            SyncStep::Execute
        }),
{
    if dry_run {
        SyncStep::Preview
    } else if force && !yes {
        SyncStep::Confirm
    } else {
        SyncStep::Execute
    }
}

/// The preflight line of a forced sync.
pub open spec fn preflight_text(overwrite: nat, new: nat, orphans: nat) -> Seq<char> {
    "preflight: overwrite "@ + decimal(overwrite) + ", new "@ + decimal(new) + ", orphans "@
        + decimal(orphans)
}

/// The preflight line of a forced sync: how many Call Files it rewrites and
/// creates, and how many orphans it leaves alone.
pub fn preflight_line(plan: &SyncPlan) -> (r: String)
    ensures
        r@ == preflight_text(
            count_tally(plan.ops(), Tally::Rewrite),
            count_tally(plan.ops(), Tally::New),
            plan.orphans@.len(),
        ),
{
    let mut out = String::new();
    push_str(&mut out, "preflight: overwrite ");
    push_decimal(&mut out, plan.overwrite_count() as u64);
    push_str(&mut out, ", new ");
    push_decimal(&mut out, plan.new_count() as u64);
    push_str(&mut out, ", orphans ");
    push_decimal(&mut out, plan.orphan_count() as u64);
    out
}

/// An answer that confirms: `y` or `yes` in any ASCII case, surrounding
/// whitespace ignored.
pub open spec fn affirmative(answer: Seq<char>) -> bool {
    let t = trim(answer).map_values(|c: char| ascii_lower(c));
    t == seq!['y'] || t == seq!['y', 'e', 's']
}

/// Whether a typed answer to the overwrite prompt confirms it.
pub fn is_affirmative(answer: &str) -> (r: bool)
    ensures
        r == affirmative(answer@),
{
    let chars = chars_of(answer);
    let t = trim_chars(&chars);
    let ghost low = t@.map_values(|c: char| ascii_lower(c));
    let mut lower: Vec<char> = Vec::new();
    let mut i: usize = 0;
    while i < t.len()
        invariant
            i <= t.len(),
            lower@ == t@.take(i as int).map_values(|c: char| ascii_lower(c)),
        decreases t.len() - i,
    {
        let c = t[i];
        lower.push(ascii_lower_exec(c));
        assert(t@.take(i as int + 1).map_values(|c: char| ascii_lower(c)) =~= t@.take(
            i as int,
        ).map_values(|c: char| ascii_lower(c)).push(ascii_lower(c)));
        i = i + 1;
    }
    assert(t@.take(t.len() as int) =~= t@);
    assert(lower@ =~= low);
    if lower.len() == 1 {
        let r = lower[0] == 'y';
        assert(r ==> low =~= seq!['y']);
        r
    } else if lower.len() == 3 {
        let r = lower[0] == 'y' && lower[1] == 'e' && lower[2] == 's';
        assert(r ==> low =~= seq!['y', 'e', 's']);
        r
    } else {
        false
    }
}

// ---------------------------------------------------------------------------
// Logging.

/// The tracing filter for a verbosity count: `warn` by
/// default, then `info`, `debug` and `trace` for `-v`, `-vv`, `-vvv`.
pub fn tracing_directive(verbose: u8) -> (r: &'static str)
    ensures
        r@ == (if verbose == 0 {
            "warn"@
        } else if verbose == 1 {
            "info"@
        } else if verbose == 2 {
            "debug"@
        } else {
            "trace"@
        }),
{
    if verbose == 0 {
        "warn"
    } else if verbose == 1 {
        "info"
    } else if verbose == 2 {
        "debug"
    } else {
        "trace"
    }
}

} // verus!

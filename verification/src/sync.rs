//! The sync planner: which Call Files already exist, what each Customer Call
//! becomes (new, healed, overwritten or skipped), where new Call Files go,
//! and which local files are orphans.  The planner never deletes.
use vstd::prelude::*;
use vstd::utf8::is_ascii_chars;
use vstd::seq_lib::{lemma_seq_contains_after_push, to_multiset_build};
use crate::api::{spec_is_customer_call, ExtensiveCall};
use crate::dates::{hour_minute_text, parse_rfc3339, push_hour_minute, spec_parse_rfc3339, StartedAt};
use crate::renderer::{ascii_lower, chars_order, compare_chars, filename_for, spec_canonical_filename, RenderError};
use crate::status::SyncReport;
use crate::text::{chars_of, decimal, digit_char, decimal_chars, push_char, push_chars, push_str, str_eq};
use unicode_normalization::UnicodeNormalization;

verus! {

// ---------------------------------------------------------------------------
// Collision keys: two file names collide when they are equal after canonical
// decomposition and lower-casing, as on case-insensitive, normalizing file
// systems.

/// The result of `unicode_normalization`'s canonical decomposition (NFD).
pub uninterp spec fn spec_nfd(s: Seq<char>) -> Seq<char>;

/// The result of `char::to_lowercase`.
pub uninterp spec fn spec_lowercase(c: char) -> Seq<char>;

/// Each character replaced by its lower-case mapping.
pub open spec fn lower_all(s: Seq<char>) -> Seq<char>
    decreases s.len(),
{
    if s.len() == 0 {
        Seq::empty()
    } else {
        lower_all(s.drop_last()) + spec_lowercase(s.last())
    }
}

/// The collision key of a file name.
pub open spec fn collision_key(name: Seq<char>) -> Seq<char> {
    lower_all(spec_nfd(name))
}

/// `s.nfd().collect::<String>()` from `unicode_normalization`.  The contract
/// names the result and states one fact of canonical decomposition: an ASCII
/// tail (ASCII characters are starters and decompose to themselves) is kept
/// as it is after the decomposition of what precedes it.
#[verifier::external_body]
fn nfd(s: &str) -> (r: String)
    ensures
        r@ == spec_nfd(s@),
        forall|k: int|
            0 <= k <= s@.len() && is_ascii_chars(#[trigger] s@.skip(k)) ==> r@ == spec_nfd(
                s@.take(k),
            ) + s@.skip(k),
{
    s.nfd().collect()
}

/// `c.to_lowercase().collect::<String>()`.  The contract names the result and
/// states that an ASCII character maps to its ASCII lower case.
#[verifier::external_body]
fn lowercase(c: char) -> (r: String)
    ensures
        r@ == spec_lowercase(c),
        '\0' <= c <= '\u{7f}' ==> r@ == seq![ascii_lower(c)],
{
    c.to_lowercase().collect()
}

/// The collision key of a file name.  Besides
/// the key, the contract records what the decomposition keeps of an ASCII
/// tail: such a tail ends the key in ASCII lower case.
pub fn filename_collision_key(filename: &str) -> (r: String)
    ensures
        r@ == collision_key(filename@),
        forall|k: int|
            0 <= k <= filename@.len() && is_ascii_chars(#[trigger] filename@.skip(k)) ==> r@
                == lower_all(spec_nfd(filename@.take(k))) + filename@.skip(k).map_values(
                |c: char| ascii_lower(c),
            ),
{
    let decomposed = nfd(filename);
    let chars = chars_of(decomposed.as_str());
    let mut key = String::new();
    let mut i: usize = 0;
    while i < chars.len()
        invariant
            i <= chars.len(),
            chars@ == spec_nfd(filename@),
            key@ == lower_all(chars@.take(i as int)),
            forall|j: int|
                0 <= j < i && '\0' <= chars@[j] <= '\u{7f}' ==> #[trigger] spec_lowercase(chars@[j])
                    == seq![ascii_lower(chars@[j])],
        decreases chars.len() - i,
    {
        assert(chars@.take(i as int + 1).drop_last() =~= chars@.take(i as int));
        let lower = lowercase(chars[i]);
        push_str(&mut key, lower.as_str());
        i = i + 1;
    }
    assert(chars@.take(chars.len() as int) =~= chars@);
    proof {
        assert forall|k: int|
            0 <= k <= filename@.len() && is_ascii_chars(#[trigger] filename@.skip(k)) implies key@
                == lower_all(spec_nfd(filename@.take(k))) + filename@.skip(k).map_values(
                |c: char| ascii_lower(c),
            ) by {
            let x = spec_nfd(filename@.take(k));
            let q = filename@.skip(k);
            assert(chars@ == x + q);
            assert forall|i: int| 0 <= i < q.len() implies #[trigger] spec_lowercase(q[i])
                == seq![ascii_lower(q[i])] by {
                assert(q[i] == chars@[x.len() + i]);
                assert('\0' <= q[i] <= '\u{7f}');
            }
            lemma_lower_all_ascii_tail(x, q);
        }
    }
    key
}

proof fn lemma_lower_all_ascii_tail(x: Seq<char>, q: Seq<char>)
    requires
        is_ascii_chars(q),
        forall|i: int| 0 <= i < q.len() ==> #[trigger] spec_lowercase(q[i]) == seq![ascii_lower(q[i])],
    ensures
        lower_all(x + q) == lower_all(x) + q.map_values(|c: char| ascii_lower(c)),
    decreases q.len(),
{
    if q.len() == 0 {
        assert(x + q =~= x);
        assert(q.map_values(|c: char| ascii_lower(c)) =~= Seq::<char>::empty());
    } else {
        let q2 = q.drop_last();
        assert(is_ascii_chars(q2)) by {
            assert forall|i: int| 0 <= i < q2.len() implies '\0' <= #[trigger] q2[i] <= '\u{7f}' by {
                assert(q2[i] == q[i]);
            }
        }
        assert forall|i: int| 0 <= i < q2.len() implies #[trigger] spec_lowercase(q2[i]) == seq![ascii_lower(q2[i])] by {
            assert(q2[i] == q[i]);
        }
        lemma_lower_all_ascii_tail(x, q2);
        assert((x + q).drop_last() =~= x + q2);
        assert((x + q).last() == q.last());
        assert('\0' <= q[q.len() - 1] <= '\u{7f}');
        assert(q.map_values(|c: char| ascii_lower(c)) =~= q2.map_values(|c: char| ascii_lower(c))
            + seq![ascii_lower(q.last())]);
    }
}

proof fn lemma_digit_char_injective(x: nat, y: nat)
    requires
        x < 10,
        y < 10,
        digit_char(x) == digit_char(y),
    ensures
        x == y,
{
}

pub(crate) proof fn lemma_decimal_injective(a: nat, b: nat)
    requires
        decimal(a) == decimal(b),
    ensures
        a == b,
    decreases a,
{
    lemma_decimal_length(a);
    lemma_decimal_length(b);
    if a < 10 && b < 10 {
        assert(decimal(a)[0] == digit_char(a));
        assert(decimal(b)[0] == digit_char(b));
        lemma_digit_char_injective(a, b);
    } else if a >= 10 && b >= 10 {
        assert(decimal(a) == decimal(a / 10).push(digit_char(a % 10)));
        assert(decimal(b) == decimal(b / 10).push(digit_char(b % 10)));
        assert(decimal(a).drop_last() =~= decimal(a / 10));
        assert(decimal(b).drop_last() =~= decimal(b / 10));
        assert(decimal(a).last() == digit_char(a % 10));
        assert(decimal(b).last() == digit_char(b % 10));
        lemma_digit_char_injective(a % 10, b % 10);
        lemma_decimal_injective(a / 10, b / 10);
    }
}

pub(crate) proof fn lemma_decimal_length(n: nat)
    ensures
        n < 10 <==> decimal(n).len() == 1,
        decimal(n).len() >= 1,
    decreases n,
{
    if n >= 10 {
        lemma_decimal_length(n / 10);
    }
}

proof fn lemma_decimal_ascii(n: nat)
    ensures
        is_ascii_chars(decimal(n)),
        decimal(n).map_values(|c: char| ascii_lower(c)) == decimal(n),
    decreases n,
{
    if n >= 10 {
        lemma_decimal_ascii(n / 10);
        assert(decimal(n).map_values(|c: char| ascii_lower(c)) =~= decimal(n / 10).map_values(
            |c: char| ascii_lower(c),
        ).push(ascii_lower(decimal(n).last())));
    } else {
        assert(decimal(n).map_values(|c: char| ascii_lower(c)) =~= decimal(n));
    }
}

// ---------------------------------------------------------------------------
// Reserving a file name.

/// `name` without a trailing `.md`.
pub open spec fn stem(name: Seq<char>) -> Seq<char> {
    if name.len() >= 3 && name.skip(name.len() - 3) == ".md"@ {
        name.take(name.len() - 3)
    } else {
        name
    }
}

/// `<stem> (HH-MM).md`.
pub open spec fn with_start(base: Seq<char>, hm: Seq<char>) -> Seq<char> {
    stem(base) + " ("@ + hm + ").md"@
}

/// `<stem> (HH-MM)-<id>`: the prefix of the id-suffixed names.
pub open spec fn id_prefix(base: Seq<char>, hm: Seq<char>, id: Seq<char>) -> Seq<char> {
    stem(base) + " ("@ + hm + ")"@ + "-"@ + id
}

/// `<stem> (HH-MM)-<id>-<n>.md`.
pub open spec fn numbered(base: Seq<char>, hm: Seq<char>, id: Seq<char>, n: nat) -> Seq<char> {
    id_prefix(base, hm, id) + "-"@ + decimal(n) + ".md"@
}

/// Whether a name's collision key is already taken.
pub open spec fn taken(used: Seq<Seq<char>>, name: Seq<char>) -> bool {
    used.contains(collision_key(name))
}

/// The smallest sequence number from 2 whose numbered name's collision key
/// is not among `keys`.
pub open spec fn first_free_number(
    base: Seq<char>,
    hm: Seq<char>,
    id: Seq<char>,
    keys: Set<Seq<char>>,
) -> nat {
    choose|n: nat|
        #![trigger numbered(base, hm, id, n)]
        n >= 2 && !keys.contains(collision_key(numbered(base, hm, id, n))) && forall|m: nat|
            2 <= m < n ==> keys.contains(collision_key(#[trigger] numbered(base, hm, id, m)))
}

/// The name a Call gets: its base name, else the name with its start time,
/// else with its start time and id, else with a sequence number; the first
/// whose collision key is free.
pub open spec fn reserved_name(
    base: Seq<char>,
    hm: Seq<char>,
    id: Seq<char>,
    used: Seq<Seq<char>>,
) -> Seq<char> {
    if !taken(used, base) {
        base
    } else if !taken(used, with_start(base, hm)) {
        with_start(base, hm)
    } else if !taken(used, id_prefix(base, hm, id) + ".md"@) {
        id_prefix(base, hm, id) + ".md"@
    } else {
        numbered(base, hm, id, first_free_number(base, hm, id, used.to_set()))
    }
}

/// Whether a list of keys holds `key`.
fn holds_key(used: &Vec<String>, key: &String) -> (r: bool)
    ensures
        r == used@.map_values(|s: String| s@).contains(key@),
{
    let ghost uv = used@.map_values(|s: String| s@);
    let mut i: usize = 0;
    while i < used.len()
        invariant
            i <= used.len(),
            uv == used@.map_values(|s: String| s@),
            forall|j: int| 0 <= j < i ==> uv[j] != key@,
        decreases used.len() - i,
    {
        if str_eq(used[i].as_str(), key.as_str()) {
            assert(uv[i as int] == key@);
            return true;
        }
        i = i + 1;
    }
    false
}

/// Takes `name` if its collision key is free.
fn try_take(used: &mut Vec<String>, name: &String) -> (r: bool)
    ensures
        r == !taken(old(used)@.map_values(|s: String| s@), name@),
        r ==> final(used)@.map_values(|s: String| s@) == old(used)@.map_values(|s: String| s@).push(
            collision_key(name@),
        ),
        !r ==> final(used)@ == old(used)@,
{
    let key = filename_collision_key(name.as_str());
    if holds_key(used, &key) {
        false
    } else {
        let ghost before = used@;
        used.push(key);
        assert(used@.map_values(|s: String| s@) =~= before.map_values(|s: String| s@).push(
            collision_key(name@),
        ));
        true
    }
}

/// `name` without a trailing `.md`.
fn strip_md(name: &String) -> (r: String)
    ensures
        r@ == stem(name@),
{
    let chars = chars_of(name.as_str());
    let n = chars.len();
    proof {
        reveal_strlit(".md");
    }
    if n >= 3 && chars[n - 3] == '.' && chars[n - 2] == 'm' && chars[n - 1] == 'd' {
        assert(name@.skip(n - 3) =~= ".md"@);
        let mut r: Vec<char> = Vec::new();
        let mut i: usize = 0;
        while i < n - 3
            invariant
                n == chars.len(),
                n >= 3,
                i <= n - 3,
                r@ == chars@.take(i as int),
            decreases n - 3 - i,
        {
            r.push(chars[i]);
            assert(chars@.take(i as int + 1) =~= chars@.take(i as int).push(chars@[i as int]));
            i = i + 1;
        }
        let mut s = String::new();
        push_chars(&mut s, &r);
        s
    } else {
        if n >= 3 {
            assert(name@.skip(n - 3)[0] == chars@[n - 3]);
            assert(name@.skip(n - 3)[1] == chars@[n - 2]);
            assert(name@.skip(n - 3)[2] == chars@[n - 1]);
        }
        name.clone()
    }
}

/// Reserves a file name for a Call: the base name when
/// its collision key is free, else `<stem> (HH-MM).md` with the Call's start
/// time, else that stem with `-<id>`, else with `-<id>-<n>` for the smallest
/// free `n` from 2.  The chosen name's key is added to `used`.
pub fn reserve_filename(base: &String, started: StartedAt, call_id: &String, used: &mut Vec<String>) -> (r: String)
    requires
        old(used).len() < usize::MAX - 2,
    ensures
        r@ == reserved_name(
            base@,
            hour_minute_text(started.hour, started.minute),
            call_id@,
            old(used)@.map_values(|s: String| s@),
        ),
        final(used)@.map_values(|s: String| s@) == old(used)@.map_values(|s: String| s@).push(
            collision_key(r@),
        ),
        !taken(old(used)@.map_values(|s: String| s@), r@),
{
    let ghost u0 = used@.map_values(|s: String| s@);
    let ghost hm = hour_minute_text(started.hour, started.minute);
    if try_take(used, base) {
        return base.clone();
    }
    let stem_text = strip_md(base);
    let mut with_start_name = stem_text.clone();
    push_str(&mut with_start_name, " (");
    push_hour_minute(&mut with_start_name, started.hour, started.minute);
    push_str(&mut with_start_name, ").md");
    assert(with_start_name@ =~= with_start(base@, hm));
    if try_take(used, &with_start_name) {
        return with_start_name;
    }
    let mut prefix = stem_text.clone();
    push_str(&mut prefix, " (");
    push_hour_minute(&mut prefix, started.hour, started.minute);
    push_str(&mut prefix, ")");
    push_str(&mut prefix, "-");
    push_str(&mut prefix, call_id.as_str());
    assert(prefix@ =~= id_prefix(base@, hm, call_id@));
    let mut with_id = prefix.clone();
    push_str(&mut with_id, ".md");
    if try_take(used, &with_id) {
        return with_id;
    }
    let mut dash_prefix = prefix.clone();
    push_str(&mut dash_prefix, "-");
    let ghost head_key = lower_all(spec_nfd(dash_prefix@));
    let ghost tried: Seq<Seq<char>> = Seq::empty();
    let mut n: usize = 2;
    loop
        invariant
            2 <= n,
            u0.len() < usize::MAX - 2,
            u0 == old(used)@.map_values(|s: String| s@),
            hm == hour_minute_text(started.hour, started.minute),
            taken(u0, base@),
            taken(u0, with_start(base@, hm)),
            taken(u0, id_prefix(base@, hm, call_id@) + ".md"@),
            used@.map_values(|s: String| s@) == u0,
            tried.len() == n - 2,
            tried.no_duplicates(),
            forall|k: int| 0 <= k < tried.len() ==> u0.contains(#[trigger] tried[k]),
            forall|k: int|
                0 <= k < tried.len() ==> #[trigger] tried[k] == head_key + decimal((k + 2) as nat)
                    + ".md"@,
            forall|m: nat| 2 <= m < n ==> taken(u0, #[trigger] numbered(base@, hm, call_id@, m)),
            dash_prefix@ == id_prefix(base@, hm, call_id@) + "-"@,
            head_key == lower_all(spec_nfd(dash_prefix@)),
        decreases u0.len() + 2 - n,
    {
        proof {
            tried.unique_seq_to_set();
            u0.lemma_cardinality_of_set();
            assert(tried.to_set().subset_of(u0.to_set())) by {
                assert forall|x: Seq<char>| tried.to_set().contains(x) implies u0.to_set().contains(
                    x,
                ) by {
                    let k = choose|k: int| 0 <= k < tried.len() && tried[k] == x;
                    assert(u0.contains(tried[k]));
                }
            }
            vstd::set_lib::lemma_len_subset(tried.to_set(), u0.to_set());
        }
        let digits = decimal_chars(n as u64);
        let mut candidate = dash_prefix.clone();
        push_chars(&mut candidate, &digits);
        push_str(&mut candidate, ".md");
        assert(candidate@ =~= numbered(base@, hm, call_id@, n as nat));
        let key = filename_collision_key(candidate.as_str());
        proof {
            reveal_strlit(".md");
            let q = decimal(n as nat) + ".md"@;
            lemma_decimal_ascii(n as nat);
            assert(candidate@ =~= dash_prefix@ + q);
            assert(candidate@.skip(dash_prefix@.len() as int) =~= q);
            assert(candidate@.take(dash_prefix@.len() as int) =~= dash_prefix@);
            assert(is_ascii_chars(q));
            assert(q.map_values(|c: char| ascii_lower(c)) =~= decimal(n as nat).map_values(
                |c: char| ascii_lower(c),
            ) + ".md"@);
            assert(key@ == head_key + decimal(n as nat) + ".md"@);
        }
        if !holds_key(used, &key) {
            let ghost before = used@;
            used.push(key);
            proof {
                assert(used@.map_values(|s: String| s@) =~= before.map_values(|s: String| s@).push(
                    collision_key(candidate@),
                ));
                assert(!taken(u0, numbered(base@, hm, call_id@, n as nat)));
                assert(first_free_number(base@, hm, call_id@, u0.to_set()) == n as nat) by {
                    let f = first_free_number(base@, hm, call_id@, u0.to_set());
                    assert forall|x: Seq<char>| #[trigger] u0.to_set().contains(x) == u0.contains(x) by {}
                    assert(n as nat >= 2 && !taken(u0, numbered(base@, hm, call_id@, n as nat))
                        && forall|m: nat|
                        2 <= m < n as nat ==> taken(u0, #[trigger] numbered(base@, hm, call_id@, m)));
                    if f < n as nat {
                        assert(taken(u0, numbered(base@, hm, call_id@, f)));
                    } else if f > n as nat {
                        assert(taken(u0, numbered(base@, hm, call_id@, n as nat)));
                    }
                }
            }
            return candidate;
        }
        proof {
            let key_n = key@;
            assert forall|k: int| 0 <= k < tried.len() implies #[trigger] tried[k] != key_n by {
                let m = (k + 2) as nat;
                if tried[k] == key_n {
                    let a = head_key + decimal(m) + ".md"@;
                    let b = head_key + decimal(n as nat) + ".md"@;
                    assert(a == b);
                    assert(a.subrange(head_key.len() as int, a.len() - 3) =~= decimal(m));
                    assert(b.subrange(head_key.len() as int, b.len() - 3) =~= decimal(n as nat));
                    lemma_decimal_injective(m, n as nat);
                }
            }
            let t2 = tried.push(key_n);
            assert(t2.no_duplicates()) by {
                assert forall|i: int, j: int|
                    0 <= i < t2.len() && 0 <= j < t2.len() && i != j implies t2[i] != t2[j] by {
                    if i < tried.len() && j < tried.len() {
                    } else if i < tried.len() {
                        assert(tried[i] != key_n);
                    } else if j < tried.len() {
                        assert(tried[j] != key_n);
                    }
                }
            }
            assert(forall|k: int|
                0 <= k < t2.len() ==> #[trigger] t2[k] == head_key + decimal((k + 2) as nat)
                    + ".md"@);
            assert(forall|k: int| 0 <= k < t2.len() ==> u0.contains(#[trigger] t2[k]));
            t2.unique_seq_to_set();
            assert(t2.to_set().subset_of(u0.to_set())) by {
                assert forall|x: Seq<char>| t2.to_set().contains(x) implies u0.to_set().contains(
                    x,
                ) by {
                    let k = choose|k: int| 0 <= k < t2.len() && t2[k] == x;
                    assert(u0.contains(t2[k]));
                }
            }
            vstd::set_lib::lemma_len_subset(t2.to_set(), u0.to_set());
            tried = t2;
        }
        n = n + 1;
    }
}

// ---------------------------------------------------------------------------
// Planning file names for the listed Calls.

/// The Customer Calls of a listing, in order.
pub open spec fn select_customer(calls: Seq<ExtensiveCall>) -> Seq<ExtensiveCall>
    decreases calls.len(),
{
    if calls.len() == 0 {
        Seq::empty()
    } else if spec_is_customer_call(calls.last()) {
        select_customer(calls.drop_last()).push(calls.last())
    } else {
        select_customer(calls.drop_last())
    }
}

/// The first Call whose `started` is not RFC 3339.
pub open spec fn first_unparsable(calls: Seq<ExtensiveCall>) -> Option<ExtensiveCall>
    decreases calls.len(),
{
    if calls.len() == 0 {
        None
    } else if spec_parse_rfc3339(calls[0].metadata.started@) is None {
        Some(calls[0])
    } else {
        first_unparsable(calls.drop_first())
    }
}

/// A Call with its parsed start.
pub type Timed = (ExtensiveCall, StartedAt);

/// Calls are ordered by the instant they started, then by id.
pub open spec fn timed_le(a: Timed, b: Timed) -> bool {
    ||| a.1.utc_seconds < b.1.utc_seconds
    ||| a.1.utc_seconds == b.1.utc_seconds && a.1.utc_nanos < b.1.utc_nanos
    ||| a.1.utc_seconds == b.1.utc_seconds && a.1.utc_nanos == b.1.utc_nanos && chars_order(
        a.0.metadata.id@,
        b.0.metadata.id@,
    ) <= 0
}

pub open spec fn insert_timed_call(sorted: Seq<Timed>, x: Timed) -> Seq<Timed>
    decreases sorted.len(),
{
    if sorted.len() == 0 {
        seq![x]
    } else if timed_le(sorted.last(), x) {
        sorted.push(x)
    } else {
        insert_timed_call(sorted.drop_last(), x).push(sorted.last())
    }
}

/// The stable sort of Calls by start, then id.
pub open spec fn sort_timed_calls(calls: Seq<Timed>) -> Seq<Timed>
    decreases calls.len(),
{
    if calls.len() == 0 {
        Seq::empty()
    } else {
        insert_timed_call(sort_timed_calls(calls.drop_last()), calls.last())
    }
}

/// Each Call paired with its parsed start.
pub open spec fn with_starts(calls: Seq<ExtensiveCall>) -> Seq<Timed> {
    calls.map_values(|c: ExtensiveCall| (c, spec_parse_rfc3339(c.metadata.started@).unwrap()))
}

/// The file names reserved, in order, for sorted Calls, and the collision
/// keys taken on the way.
pub open spec fn planned_names(sorted: Seq<Timed>) -> (Seq<Seq<char>>, Seq<Seq<char>>)
    decreases sorted.len(),
{
    if sorted.len() == 0 {
        (Seq::empty(), Seq::empty())
    } else {
        let (names, used) = planned_names(sorted.drop_last());
        let (c, t) = sorted.last();
        let name = reserved_name(
            spec_canonical_filename(c, t),
            hour_minute_text(t.hour, t.minute),
            c.metadata.id@,
            used,
        );
        (names.push(name), used.push(collision_key(name)))
    }
}

proof fn lemma_planned_names_len(sorted: Seq<Timed>)
    ensures
        planned_names(sorted).0.len() == sorted.len(),
        planned_names(sorted).1.len() == sorted.len(),
    decreases sorted.len(),
{
    if sorted.len() > 0 {
        lemma_planned_names_len(sorted.drop_last());
    }
}

/// A Call with its parsed start and its planned file name.
#[derive(Debug)]
pub struct PlannedCall {
    pub call: ExtensiveCall,
    pub started: StartedAt,
    pub filename: String,
}

proof fn lemma_insert_timed_call_at(sorted: Seq<Timed>, x: Timed, j: int)
    requires
        0 <= j <= sorted.len(),
        forall|k: int| j <= k < sorted.len() ==> !timed_le(#[trigger] sorted[k], x),
        j == 0 || timed_le(sorted[j - 1], x),
    ensures
        insert_timed_call(sorted, x) == sorted.take(j).push(x) + sorted.skip(j),
    decreases sorted.len(),
{
    if sorted.len() == 0 {
        assert(sorted.take(j).push(x) + sorted.skip(j) =~= seq![x]);
    } else if j == sorted.len() {
        assert(sorted.take(j).push(x) + sorted.skip(j) =~= sorted.push(x));
    } else {
        let d = sorted.drop_last();
        assert forall|k: int| j <= k < d.len() implies !timed_le(#[trigger] d[k], x) by {
            assert(d[k] == sorted[k]);
        }
        if j > 0 {
            assert(d[j - 1] == sorted[j - 1]);
        }
        lemma_insert_timed_call_at(d, x, j);
        assert(d.take(j).push(x) + d.skip(j) + seq![sorted.last()] =~= sorted.take(j).push(x)
            + sorted.skip(j));
    }
}

fn timed_le_exec(a: &Timed, b: &Timed) -> (r: bool)
    ensures
        r == timed_le(*a, *b),
{
    if a.1.utc_seconds != b.1.utc_seconds {
        return a.1.utc_seconds < b.1.utc_seconds;
    }
    if a.1.utc_nanos != b.1.utc_nanos {
        return a.1.utc_nanos < b.1.utc_nanos;
    }
    compare_chars(&chars_of(a.0.metadata.id.as_str()), &chars_of(b.0.metadata.id.as_str())) <= 0
}

/// Plans the file names of `calls`: every start must parse, else the first
/// Call whose start does not is the error; the Calls are sorted by start, then id, and
/// each reserves its canonical name in that order, later Calls yielding to
/// earlier ones.
pub fn plan_filenames(calls: Vec<ExtensiveCall>) -> (r: Result<Vec<PlannedCall>, RenderError>)
    requires
        calls.len() < usize::MAX - 4,
    ensures
        match r {
            Ok(planned) => {
                let sorted = sort_timed_calls(with_starts(calls@));
                &&& first_unparsable(calls@) is None
                &&& planned@.len() == sorted.len()
                &&& forall|i: int|
                    0 <= i < planned@.len() ==> (#[trigger] planned@[i]).call == sorted[i].0
                        && planned@[i].started == sorted[i].1 && planned@[i].filename@
                        == planned_names(sorted).0[i]
            },
            Err(e) => first_unparsable(calls@) matches Some(c) && e == RenderError::InvalidStarted {
                call_id: c.metadata.id,
                started: c.metadata.started,
            },
        },
{
    let ghost cust = calls@;
    let customer = calls;
    let mut timed: Vec<Timed> = Vec::new();
    let mut first = true;
    assert(cust.skip(0) =~= cust);
    for call in it: customer
        invariant
            cust == it.seq(),
            timed@ == with_starts(cust.take(it.index() as int)),
            timed.len() == it.index(),
            forall|i: int| 0 <= i < timed.len() ==> rfc3339_ok(#[trigger] timed@[i]),
            first_unparsable(cust) == first_unparsable(cust.skip(it.index() as int)),
            cust == calls@,
            cust.len() < usize::MAX - 4,
    {
        let ghost k = it.index();
        assert(cust.skip(k)[0] == call);
        assert(cust.skip(k).drop_first() =~= cust.skip(k + 1));
        match parse_rfc3339(call.metadata.started.as_str()) {
            None => {
                assert(first_unparsable(cust.skip(k)) == Some(call));
                return Err(
                    RenderError::InvalidStarted {
                        call_id: call.metadata.id,
                        started: call.metadata.started,
                    },
                );
            },
            Some(t) => {
                let ghost before = timed@;
                timed.push((call, t));
                assert(timed@ =~= with_starts(cust.take(k + 1)));
            },
        }
    }
    assert(cust.take(cust.len() as int) =~= cust);
    assert(cust.skip(cust.len() as int).len() == 0);
    let ghost tv = timed@;
    let mut sorted: Vec<Timed> = Vec::new();
    for x in it: timed
        invariant
            tv == it.seq(),
            sorted@ == sort_timed_calls(tv.take(it.index() as int)),
            sorted.len() == it.index(),
            forall|i: int| 0 <= i < tv.len() ==> rfc3339_ok(#[trigger] tv[i]),
            forall|i: int| 0 <= i < sorted.len() ==> rfc3339_ok(#[trigger] sorted@[i]),
            tv.len() < usize::MAX - 4,
    {
        let ghost k = it.index();
        let mut j: usize = sorted.len();
        while j > 0 && !timed_le_exec(&sorted[j - 1], &x)
            invariant
                j <= sorted.len(),
                forall|m: int| j <= m < sorted.len() ==> !timed_le(#[trigger] sorted@[m], x),
            decreases j,
        {
            j = j - 1;
        }
        proof {
            lemma_insert_timed_call_at(sorted@, x, j as int);
            assert(tv.take(k + 1).drop_last() =~= tv.take(k));
            assert(tv.take(k + 1).last() == x);
        }
        assert(rfc3339_ok(tv[k]));
        let ghost before = sorted@;
        sorted.insert(j, x);
        assert(sorted@ =~= insert_timed_call(sort_timed_calls(tv.take(k)), x));
        assert forall|i: int| 0 <= i < sorted.len() implies rfc3339_ok(#[trigger] sorted@[i]) by {
            if i < j {
                assert(sorted@[i] == before[i]);
            } else if i > j {
                assert(sorted@[i] == before[i - 1]);
            }
        }
    }
    assert(tv.take(tv.len() as int) =~= tv);
    let ghost sv = sorted@;
    let mut used: Vec<String> = Vec::new();
    let mut planned: Vec<PlannedCall> = Vec::new();
    for x in it: sorted
        invariant
            sv == it.seq(),
            sv.len() < usize::MAX - 4,
            planned@.len() == it.index(),
            used@.len() == it.index(),
            used@.map_values(|s: String| s@) == planned_names(sv.take(it.index() as int)).1,
            forall|i: int|
                0 <= i < it.index() ==> (#[trigger] planned@[i]).call == sv[i].0
                    && planned@[i].started == sv[i].1 && planned@[i].filename@ == planned_names(
                    sv.take(it.index() as int),
                ).0[i],
            forall|i: int| 0 <= i < sv.len() ==> rfc3339_ok(#[trigger] sv[i]),
    {
        let ghost k = it.index();
        let (call, t) = x;
        assert(sv.take(k + 1).drop_last() =~= sv.take(k));
        assert(rfc3339_ok(sv[k]));
        let base = filename_for(&call, t);
        let ghost prev = planned_names(sv.take(k));
        proof {
            lemma_planned_names_len(sv.take(k));
            lemma_planned_names_len(sv.take(k + 1));
        }
        let name = reserve_filename(&base, t, &call.metadata.id, &mut used);
        assert(used@.len() == used@.map_values(|s: String| s@).len());
        planned.push(PlannedCall { call, started: t, filename: name });
        assert(planned_names(sv.take(k + 1)).0 == prev.0.push(name@));
        assert(forall|i: int| 0 <= i < k ==> prev.0[i] == planned_names(sv.take(k + 1)).0[i]);
    }
    assert(sv.take(sv.len() as int) =~= sv);
    Ok(planned)
}

/// What a parsed start guarantees about the date, in the form the file name
/// writer needs.
pub open spec fn rfc3339_ok(x: Timed) -> bool {
    0 <= x.1.date.year <= 9999 && x.1.date.month < 100 && x.1.date.day < 100
}

// ---------------------------------------------------------------------------
// Matching Calls to existing Call Files, and the plan.

/// A Call File found in the Output Directory: its file name, the
/// `gong_call_id` of its front matter, and whether it still holds the
/// placeholder.
#[derive(Debug, Clone)]
pub struct ExistingFile {
    pub filename: String,
    pub call_id: Option<String>,
    pub incomplete: bool,
}

/// What sync does with one Call.
#[derive(Debug, Clone, Copy, PartialEq, Eq, Structural)]
pub enum Action {
    New,
    Heal,
    Overwrite,
    Skip,
}

/// Where a Call File goes: over an existing file (by its index in the scan),
/// or to a new file name in the Output Directory.
#[derive(Debug, Clone, PartialEq, Eq)]
pub enum Target {
    Existing(usize),
    New(String),
}

/// The mathematical value of a target.
pub enum TargetView {
    Existing(int),
    New(Seq<char>),
}

/// One planned operation.
#[derive(Debug)]
pub struct PlannedOperation {
    pub call: ExtensiveCall,
    pub target: Target,
    pub action: Action,
}

/// The mathematical value of a planned operation.
pub struct OperationView {
    pub call: ExtensiveCall,
    pub target: TargetView,
    pub action: Action,
}

impl View for PlannedOperation {
    type V = OperationView;

    open spec fn view(&self) -> OperationView {
        OperationView {
            call: self.call,
            target: match self.target {
                Target::Existing(i) => TargetView::Existing(i as int),
                Target::New(n) => TargetView::New(n@),
            },
            action: self.action,
        }
    }
}

/// A sync plan: the operations in order of Call start, and the orphans
/// (indices of scanned files that match no listed Call), sorted by file name.
#[derive(Debug)]
pub struct SyncPlan {
    pub operations: Vec<PlannedOperation>,
    pub orphans: Vec<usize>,
}

/// The first file whose front matter names this Call id.
pub open spec fn match_by_id(files: Seq<ExistingFile>, id: Seq<char>) -> Option<int>
    decreases files.len(),
{
    if files.len() == 0 {
        None
    } else if files[0].call_id matches Some(c) && c@ == id {
        Some(0)
    } else {
        match match_by_id(files.drop_first(), id) {
            Some(i) => Some(i + 1),
            None => None,
        }
    }
}

/// The last file with this exact file name.
pub open spec fn match_by_name(files: Seq<ExistingFile>, name: Seq<char>) -> Option<int>
    decreases files.len(),
{
    if files.len() == 0 {
        None
    } else if files.last().filename@ == name {
        Some(files.len() - 1)
    } else {
        match_by_name(files.drop_last(), name)
    }
}

/// The file a Call matches: by `gong_call_id` first, by planned file name
/// otherwise.
pub open spec fn matched_file(files: Seq<ExistingFile>, id: Seq<char>, name: Seq<char>) -> Option<
    int,
> {
    match match_by_id(files, id) {
        Some(i) => Some(i),
        None => match_by_name(files, name),
    }
}

/// A Call without a file is new; a matched file holding the placeholder is
/// healed; a matched complete file is overwritten under `--force` and skipped
/// otherwise.
pub open spec fn action_for(files: Seq<ExistingFile>, m: Option<int>, force: bool) -> Action {
    match m {
        None => Action::New,
        Some(i) => if files[i].incomplete {
            Action::Heal
        } else if force {
            Action::Overwrite
        } else {
            Action::Skip
        },
    }
}

/// The collision keys of the scanned files.
pub open spec fn file_keys(files: Seq<ExistingFile>) -> Seq<Seq<char>> {
    files.map_values(|f: ExistingFile| collision_key(f.filename@))
}

/// The collision keys of file names.
pub open spec fn name_keys(names: Seq<Seq<char>>) -> Seq<Seq<char>> {
    names.map_values(|n: Seq<char>| collision_key(n))
}

/// The keys a plan reserves before its first new name: those of the scanned
/// files, then those of every other file in the Output Directory.
pub open spec fn base_keys(files: Seq<ExistingFile>, others: Seq<Seq<char>>) -> Seq<Seq<char>> {
    file_keys(files) + name_keys(others)
}

/// The operations for sorted Calls with their planned names, and the keys
/// reserved on the way (those of the scanned files and of the other files of
/// the directory first).
pub open spec fn operations(
    sorted: Seq<Timed>,
    names: Seq<Seq<char>>,
    files: Seq<ExistingFile>,
    others: Seq<Seq<char>>,
    force: bool,
) -> (Seq<OperationView>, Seq<Seq<char>>)
    decreases sorted.len(),
{
    if sorted.len() == 0 {
        (Seq::empty(), base_keys(files, others))
    } else {
        let (ops, reserved) = operations(sorted.drop_last(), names, files, others, force);
        let i = sorted.len() - 1;
        let (c, t) = sorted[i];
        let name = names[i];
        let m = matched_file(files, c.metadata.id@, name);
        let action = action_for(files, m, force);
        match m {
            Some(j) => (
                ops.push(OperationView { call: c, target: TargetView::Existing(j), action }),
                reserved,
            ),
            None => {
                let n = reserved_name(name, hour_minute_text(t.hour, t.minute), c.metadata.id@, reserved);
                (
                    ops.push(OperationView { call: c, target: TargetView::New(n), action }),
                    reserved.push(collision_key(n)),
                )
            },
        }
    }
}

/// The collision keys of a plan's new file names, in order.
pub open spec fn new_keys(ops: Seq<OperationView>) -> Seq<Seq<char>>
    decreases ops.len(),
{
    if ops.len() == 0 {
        Seq::empty()
    } else {
        match ops.last().target {
            TargetView::New(n) => new_keys(ops.drop_last()).push(collision_key(n)),
            TargetView::Existing(_) => new_keys(ops.drop_last()),
        }
    }
}

/// New Call Files never collide: their collision keys differ from each
/// other and from every scanned file's.
pub open spec fn new_names_fresh(ops: Seq<OperationView>, files: Seq<ExistingFile>) -> bool {
    &&& new_keys(ops).no_duplicates()
    &&& forall|k: int|
        0 <= k < new_keys(ops).len() ==> !file_keys(files).contains(#[trigger] new_keys(ops)[k])
}

/// The texts of a list of strings.
pub open spec fn names_of(v: Seq<String>) -> Seq<Seq<char>> {
    v.map_values(|s: String| s@)
}

/// No new Call File takes the name, or the collision key, of a file that was
/// in the Output Directory before the run: a plain sync never writes a new
/// file over an existing one.
pub open spec fn new_names_clear(ops: Seq<OperationView>, others: Seq<Seq<char>>) -> bool {
    forall|k: int, i: int|
        0 <= k < ops.len() && 0 <= i < others.len() && (#[trigger] ops[k]).target is New ==> ops[k].target->New_0
            != #[trigger] others[i] && collision_key(ops[k].target->New_0) != collision_key(others[i])
}

/// Whether some operation targets file `j`.
pub open spec fn is_matched(ops: Seq<OperationView>, j: int) -> bool {
    exists|k: int| 0 <= k < ops.len() && (#[trigger] ops[k]).target == TargetView::Existing(j)
}

/// The indices below `n` of files no operation targets, in order.
pub open spec fn unmatched(ops: Seq<OperationView>, n: nat) -> Seq<int>
    decreases n,
{
    if n == 0 {
        Seq::empty()
    } else if is_matched(ops, n - 1) {
        unmatched(ops, (n - 1) as nat)
    } else {
        unmatched(ops, (n - 1) as nat).push(n - 1)
    }
}

/// Inserts a file index after every index whose file name orders before or
/// with its own.
pub open spec fn insert_by_name(sorted: Seq<int>, x: int, files: Seq<ExistingFile>) -> Seq<int>
    decreases sorted.len(),
{
    if sorted.len() == 0 {
        seq![x]
    } else if chars_order(files[sorted.last()].filename@, files[x].filename@) <= 0 {
        sorted.push(x)
    } else {
        insert_by_name(sorted.drop_last(), x, files).push(sorted.last())
    }
}

/// File indices stably sorted by file name.
pub open spec fn sort_by_name(idx: Seq<int>, files: Seq<ExistingFile>) -> Seq<int>
    decreases idx.len(),
{
    if idx.len() == 0 {
        Seq::empty()
    } else {
        insert_by_name(sort_by_name(idx.drop_last(), files), idx.last(), files)
    }
}

/// The orphans of a full re-render: files that match no listed Call, sorted
/// by name.  Outside full mode there are none.
pub open spec fn orphans_of(ops: Seq<OperationView>, files: Seq<ExistingFile>, full: bool) -> Seq<
    int,
> {
    if full {
        sort_by_name(unmatched(ops, files.len()), files)
    } else {
        Seq::empty()
    }
}

/// Inserting a Call into a sorted list adds exactly that Call.
proof fn lemma_insert_timed_calls(sorted: Seq<Timed>, x: Timed)
    ensures
        insert_timed_call(sorted, x).map_values(|t: Timed| t.0).to_multiset() == sorted.map_values(
            |t: Timed| t.0,
        ).to_multiset().insert(x.0),
    decreases sorted.len(),
{
    let r = insert_timed_call(sorted, x);
    if sorted.len() == 0 {
        assert(r.map_values(|t: Timed| t.0) =~= Seq::<ExtensiveCall>::empty().push(x.0));
        to_multiset_build(Seq::<ExtensiveCall>::empty(), x.0);
        assert(sorted.map_values(|t: Timed| t.0) =~= Seq::<ExtensiveCall>::empty());
    } else if timed_le(sorted.last(), x) {
        assert(r.map_values(|t: Timed| t.0) =~= sorted.map_values(|t: Timed| t.0).push(x.0));
        to_multiset_build(sorted.map_values(|t: Timed| t.0), x.0);
    } else {
        let init = sorted.drop_last();
        let last = sorted.last();
        lemma_insert_timed_calls(init, x);
        let q = insert_timed_call(init, x);
        assert(r.map_values(|t: Timed| t.0) =~= q.map_values(|t: Timed| t.0).push(last.0));
        to_multiset_build(q.map_values(|t: Timed| t.0), last.0);
        assert(sorted.map_values(|t: Timed| t.0) =~= init.map_values(|t: Timed| t.0).push(last.0));
        to_multiset_build(init.map_values(|t: Timed| t.0), last.0);
        assert(r.map_values(|t: Timed| t.0).to_multiset() =~= sorted.map_values(|t: Timed| t.0).to_multiset().insert(x.0));
    }
}

/// Sorting Calls by start keeps exactly the Calls it was given.
proof fn lemma_sort_timed_calls(xs: Seq<Timed>)
    ensures
        sort_timed_calls(xs).map_values(|t: Timed| t.0).to_multiset() == xs.map_values(
            |t: Timed| t.0,
        ).to_multiset(),
    decreases xs.len(),
{
    if xs.len() == 0 {
        assert(sort_timed_calls(xs).map_values(|t: Timed| t.0) =~= xs.map_values(|t: Timed| t.0));
    } else {
        let init = xs.drop_last();
        lemma_sort_timed_calls(init);
        lemma_insert_timed_calls(sort_timed_calls(init), xs.last());
        assert(xs.map_values(|t: Timed| t.0) =~= init.map_values(|t: Timed| t.0).push(xs.last().0));
        to_multiset_build(init.map_values(|t: Timed| t.0), xs.last().0);
    }
}

/// The operations follow the sorted Calls one for one.
proof fn lemma_operations_calls(
    sorted: Seq<Timed>,
    names: Seq<Seq<char>>,
    files: Seq<ExistingFile>,
    others: Seq<Seq<char>>,
    force: bool,
)
    ensures
        operations(sorted, names, files, others, force).0.map_values(|o: OperationView| o.call)
            == sorted.map_values(|t: Timed| t.0),
    decreases sorted.len(),
{
    if sorted.len() == 0 {
        assert(operations(sorted, names, files, others, force).0.map_values(|o: OperationView| o.call)
            =~= sorted.map_values(|t: Timed| t.0));
    } else {
        lemma_operations_calls(sorted.drop_last(), names, files, others, force);
        let prev = operations(sorted.drop_last(), names, files, others, force).0;
        let now = operations(sorted, names, files, others, force).0;
        assert(now.drop_last() == prev);
        assert(now.last().call == sorted.last().0);
        assert(now.map_values(|o: OperationView| o.call) =~= prev.map_values(
            |o: OperationView| o.call,
        ).push(sorted.last().0));
        assert(sorted.map_values(|t: Timed| t.0) =~= sorted.drop_last().map_values(|t: Timed| t.0).push(
            sorted.last().0,
        ));
    }
}

/// Every Customer Call of a listing gets exactly one operation, and no other
/// Call gets one: the Calls of the plan are the listing's Customer Calls,
/// reordered by start.  An Internal Call is never written.
pub proof fn lemma_one_operation_per_customer_call(
    calls: Seq<ExtensiveCall>,
    files: Seq<ExistingFile>,
    others: Seq<Seq<char>>,
    force: bool,
)
    ensures
        planned_operations(calls, files, others, force).map_values(|o: OperationView| o.call).to_multiset()
            == select_customer(calls).to_multiset(),
{
    let customers = select_customer(calls);
    let sorted = sorted_customer_calls(calls);
    lemma_operations_calls(sorted, planned_names(sorted).0, files, others, force);
    lemma_sort_timed_calls(with_starts(customers));
    assert(with_starts(customers).map_values(|t: Timed| t.0) =~= customers);
}

/// The files no operation targets are exactly those below the bound, each
/// once and in order.
proof fn lemma_unmatched(ops: Seq<OperationView>, n: nat)
    ensures
        forall|x: int| #[trigger] unmatched(ops, n).contains(x) <==> (0 <= x < n && !is_matched(ops, x)),
        unmatched(ops, n).no_duplicates(),
    decreases n,
{
    if n > 0 {
        lemma_unmatched(ops, (n - 1) as nat);
        let prev = unmatched(ops, (n - 1) as nat);
        if !is_matched(ops, n - 1) {
            let r = prev.push(n - 1);
            assert forall|x: int| r.contains(x) <==> (0 <= x < n && !is_matched(ops, x)) by {
                lemma_seq_contains_after_push(prev, n - 1, x);
                assert(prev.contains(x) <==> (0 <= x < n - 1 && !is_matched(ops, x)));
            }
            assert forall|i: int, j: int| 0 <= i < r.len() && 0 <= j < r.len() && i != j implies r[i]
                != r[j] by {
                if i < prev.len() && j < prev.len() {
                } else if i < prev.len() {
                    assert(prev.contains(prev[i]));
                } else {
                    assert(prev.contains(prev[j]));
                }
            }
        } else {
            assert forall|x: int| prev.contains(x) <==> (0 <= x < n && !is_matched(ops, x)) by {
                assert(prev.contains(x) <==> (0 <= x < n - 1 && !is_matched(ops, x)));
            }
        }
    }
}

/// Inserting by name adds exactly the one index.
proof fn lemma_insert_by_name(sorted: Seq<int>, x: int, files: Seq<ExistingFile>)
    ensures
        insert_by_name(sorted, x, files).len() == sorted.len() + 1,
        forall|y: int| #[trigger] insert_by_name(sorted, x, files).contains(y) <==> (sorted.contains(y) || y == x),
        sorted.no_duplicates() && !sorted.contains(x) ==> insert_by_name(
            sorted,
            x,
            files,
        ).no_duplicates(),
    decreases sorted.len(),
{
    let r = insert_by_name(sorted, x, files);
    if sorted.len() == 0 {
        assert(r =~= seq![x]);
        assert forall|y: int| r.contains(y) <==> (sorted.contains(y) || y == x) by {
            assert(r =~= Seq::<int>::empty().push(x));
            lemma_seq_contains_after_push(Seq::<int>::empty(), x, y);
        }
    } else if chars_order(files[sorted.last()].filename@, files[x].filename@) <= 0 {
        assert(r =~= sorted.push(x));
        assert forall|y: int| r.contains(y) <==> (sorted.contains(y) || y == x) by {
            lemma_seq_contains_after_push(sorted, x, y);
        }
        if sorted.no_duplicates() && !sorted.contains(x) {
            assert forall|i: int, j: int| 0 <= i < r.len() && 0 <= j < r.len() && i != j implies r[i]
                != r[j] by {
                if i == sorted.len() {
                    assert(sorted.contains(r[j]));
                } else if j == sorted.len() {
                    assert(sorted.contains(r[i]));
                }
            }
        }
    } else {
        let init = sorted.drop_last();
        let last = sorted.last();
        lemma_insert_by_name(init, x, files);
        let q = insert_by_name(init, x, files);
        assert(r =~= q.push(last));
        assert(sorted =~= init.push(last));
        assert forall|y: int| r.contains(y) <==> (sorted.contains(y) || y == x) by {
            lemma_seq_contains_after_push(q, last, y);
            lemma_seq_contains_after_push(init, last, y);
            assert(q.contains(y) <==> (init.contains(y) || y == x));
        }
        if sorted.no_duplicates() && !sorted.contains(x) {
            assert(init.no_duplicates()) by {
                assert forall|i: int, j: int|
                    0 <= i < init.len() && 0 <= j < init.len() && i != j implies init[i] != init[j] by {
                    assert(init[i] == sorted[i] && init[j] == sorted[j]);
                }
            }
            assert(!init.contains(x)) by {
                lemma_seq_contains_after_push(init, last, x);
            }
            assert(!q.contains(last)) by {
                assert(q.contains(last) <==> (init.contains(last) || last == x));
                if init.contains(last) {
                    let m = choose|m: int| 0 <= m < init.len() && init[m] == last;
                    assert(sorted[m] == sorted[sorted.len() - 1]);
                }
                lemma_seq_contains_after_push(init, last, last);
            }
            assert forall|i: int, j: int| 0 <= i < r.len() && 0 <= j < r.len() && i != j implies r[i]
                != r[j] by {
                if i == q.len() {
                    assert(q.contains(r[j]));
                } else if j == q.len() {
                    assert(q.contains(r[i]));
                }
            }
        }
    }
}

/// Sorting by name keeps exactly the indices it was given.
proof fn lemma_sort_by_name(idx: Seq<int>, files: Seq<ExistingFile>)
    ensures
        forall|y: int| #[trigger] sort_by_name(idx, files).contains(y) <==> idx.contains(y),
        idx.no_duplicates() ==> sort_by_name(idx, files).no_duplicates(),
    decreases idx.len(),
{
    if idx.len() > 0 {
        let init = idx.drop_last();
        let last = idx.last();
        assert(idx =~= init.push(last));
        lemma_sort_by_name(init, files);
        let sorted = sort_by_name(init, files);
        lemma_insert_by_name(sorted, last, files);
        assert forall|y: int| sort_by_name(idx, files).contains(y) <==> idx.contains(y) by {
            lemma_seq_contains_after_push(init, last, y);
            assert(sorted.contains(y) <==> init.contains(y));
        }
        if idx.no_duplicates() {
            assert(init.no_duplicates()) by {
                assert forall|i: int, j: int|
                    0 <= i < init.len() && 0 <= j < init.len() && i != j implies init[i] != init[j] by {
                    assert(init[i] == idx[i] && init[j] == idx[j]);
                }
            }
            assert(!sorted.contains(last)) by {
                assert(sorted.contains(last) <==> init.contains(last));
                if init.contains(last) {
                    let m = choose|m: int| 0 <= m < init.len() && init[m] == last;
                    assert(idx[m] == idx[idx.len() - 1]);
                }
            }
        }
    }
}

/// A sync never touches an orphan: in full mode the orphans are exactly the
/// scanned files that no operation targets, each reported once.  So a file
/// is overwritten only when a listed Call matches it, and no file is ever
/// planned for deletion.
pub proof fn lemma_orphans_are_untargeted(ops: Seq<OperationView>, files: Seq<ExistingFile>)
    ensures
        forall|x: int|
            orphans_of(ops, files, true).contains(x) <==> (0 <= x < files.len() && !is_matched(
                ops,
                x,
            )),
        orphans_of(ops, files, true).no_duplicates(),
        orphans_of(ops, files, false).len() == 0,
{
    lemma_unmatched(ops, files.len());
    lemma_sort_by_name(unmatched(ops, files.len()), files);
    let o = orphans_of(ops, files, true);
    assert(o == sort_by_name(unmatched(ops, files.len()), files));
    assert forall|x: int| o.contains(x) <==> (0 <= x < files.len() && !is_matched(ops, x)) by {
        assert(o.contains(x) <==> unmatched(ops, files.len()).contains(x));
    }
}

/// The sorted Customer Calls of a listing.
pub open spec fn sorted_customer_calls(calls: Seq<ExtensiveCall>) -> Seq<Timed> {
    sort_timed_calls(with_starts(select_customer(calls)))
}

/// The operations of a listing.
pub open spec fn planned_operations(
    calls: Seq<ExtensiveCall>,
    files: Seq<ExistingFile>,
    others: Seq<Seq<char>>,
    force: bool,
) -> Seq<OperationView> {
    let sorted = sorted_customer_calls(calls);
    operations(sorted, planned_names(sorted).0, files, others, force).0
}

/// The index of the first file whose front matter names `id`.
fn find_by_id(files: &Vec<ExistingFile>, id: &str) -> (r: Option<usize>)
    ensures
        match r {
            Some(i) => match_by_id(files@, id@) == Some(i as int) && i < files.len(),
            None => match_by_id(files@, id@) is None,
        },
{
    let mut i: usize = 0;
    assert(files@.skip(0) =~= files@);
    while i < files.len()
        invariant
            i <= files.len(),
            match_by_id(files@, id@) == match match_by_id(files@.skip(i as int), id@) {
                Some(k) => Some(k + i),
                None => None,
            },
        decreases files.len() - i,
    {
        assert(files@.skip(i as int)[0] == files@[i as int]);
        assert(files@.skip(i as int).drop_first() =~= files@.skip(i as int + 1));
        if crate::api::opt_str_eq(&files[i].call_id, id) {
            return Some(i);
        }
        i = i + 1;
    }
    None
}

/// The index of the last file with this exact name.
fn find_by_name(files: &Vec<ExistingFile>, name: &str) -> (r: Option<usize>)
    ensures
        match r {
            Some(i) => match_by_name(files@, name@) == Some(i as int) && i < files.len(),
            None => match_by_name(files@, name@) is None,
        },
{
    let mut k: usize = files.len();
    assert(files@.take(k as int) =~= files@);
    while k > 0
        invariant
            k <= files.len(),
            match_by_name(files@, name@) == match_by_name(files@.take(k as int), name@),
        decreases k,
    {
        let ghost t = files@.take(k as int);
        assert(t.last() == files@[k - 1]);
        assert(t.drop_last() =~= files@.take(k as int - 1));
        if str_eq(files[k - 1].filename.as_str(), name) {
            return Some(k - 1);
        }
        k = k - 1;
    }
    None
}

/// The Customer Calls among `calls`, in order.
pub fn customer_calls(calls: Vec<ExtensiveCall>) -> (r: Vec<ExtensiveCall>)
    ensures
        r@ == select_customer(calls@),
{
    let ghost all = calls@;
    let mut customer: Vec<ExtensiveCall> = Vec::new();
    for call in it: calls
        invariant
            all == it.seq(),
            customer@ == select_customer(it.seq().take(it.index() as int)),
            customer.len() <= it.index(),
    {
        let ghost k = it.index();
        assert(it.seq().take(k + 1).drop_last() =~= it.seq().take(k));
        if call.is_customer_call() {
            customer.push(call);
        }
    }
    assert(all.take(all.len() as int) =~= all);
    customer
}

/// Plans a sync (the decisions of `prepare`): the Customer Calls among
/// `calls` get file names in order of start, then each is matched to a
/// scanned file by `gong_call_id`, else by file name; unmatched Calls get a
/// new name that collides with no scanned file and no earlier new name.  In
/// full mode, scanned files that no Call matches are reported as orphans.
/// Nothing is ever planned for deletion.
pub fn prepare_plan(
    calls: Vec<ExtensiveCall>,
    files: &Vec<ExistingFile>,
    others: &Vec<String>,
    force: bool,
    full: bool,
) -> (r: Result<SyncPlan, RenderError>)
    requires
        calls.len() + files.len() + others.len() < usize::MAX - 4,
    ensures
        match r {
            Ok(plan) => {
                &&& first_unparsable(select_customer(calls@)) is None
                &&& plan.operations@.map_values(|o: PlannedOperation| o@) == planned_operations(
                    calls@,
                    files@, names_of(others@),
                    force,
                )
                &&& plan.orphans@.map_values(|i: usize| i as int) == orphans_of(
                    planned_operations(calls@, files@, names_of(others@), force),
                    files@,
                    full,
                )
                &&& new_names_fresh(planned_operations(calls@, files@, names_of(others@), force), files@)
                &&& new_names_clear(
                    planned_operations(calls@, files@, names_of(others@), force),
                    names_of(others@),
                )
            },
            Err(e) => first_unparsable(select_customer(calls@)) matches Some(c)
                && e == RenderError::InvalidStarted {
                call_id: c.metadata.id,
                started: c.metadata.started,
            },
        },
{
    let ghost all = calls@;
    let customer = customer_calls(calls);
    proof {
        lemma_select_customer_len(all);
    }
    let planned = plan_filenames(customer)?;
    let ghost sorted = sorted_customer_calls(all);
    let ghost names = planned_names(sorted).0;
    proof {
        lemma_planned_names_len(sorted);
        lemma_sorted_len(all);
    }
    let mut reserved: Vec<String> = Vec::new();
    let mut f: usize = 0;
    while f < files.len()
        invariant
            f <= files.len(),
            reserved@.len() == f,
            reserved@.map_values(|s: String| s@) == file_keys(files@.take(f as int)),
        decreases files.len() - f,
    {
        let key = filename_collision_key(files[f].filename.as_str());
        let ghost before = reserved@;
        reserved.push(key);
        assert(reserved@.map_values(|s: String| s@) =~= before.map_values(|s: String| s@).push(key@));
        assert(file_keys(files@.take(f as int + 1)) =~= file_keys(files@.take(f as int)).push(
            collision_key(files@[f as int].filename@),
        ));
        f = f + 1;
    }
    assert(files@.take(files.len() as int) =~= files@);
    let ghost ov = names_of(others@);
    let mut g: usize = 0;
    while g < others.len()
        invariant
            g <= others.len(),
            ov == names_of(others@),
            reserved@.len() == files.len() + g,
            reserved@.map_values(|s: String| s@) == file_keys(files@) + name_keys(ov.take(g as int)),
        decreases others.len() - g,
    {
        let key = filename_collision_key(others[g].as_str());
        let ghost before = reserved@;
        reserved.push(key);
        assert(reserved@.map_values(|s: String| s@) =~= before.map_values(|s: String| s@).push(key@));
        assert(name_keys(ov.take(g as int + 1)) =~= name_keys(ov.take(g as int)).push(
            collision_key(ov[g as int]),
        ));
        g = g + 1;
    }
    assert(ov.take(others.len() as int) =~= ov);
    let ghost pv = planned@;
    let mut ops: Vec<PlannedOperation> = Vec::new();
    let mut matched: Vec<bool> = Vec::new();
    let mut z: usize = 0;
    while z < files.len()
        invariant
            z <= files.len(),
            matched.len() == z,
            forall|k: int| 0 <= k < z ==> !(#[trigger] matched@[k]),
        decreases files.len() - z,
    {
        matched.push(false);
        z = z + 1;
    }
    assert(ops@.map_values(|o: PlannedOperation| o@) =~= Seq::<OperationView>::empty());
    assert(base_keys(files@, ov) + new_keys(Seq::<OperationView>::empty()) =~= base_keys(files@, ov));
    for p in it: planned
        invariant
            pv == it.seq(),
            pv.len() == sorted.len(),
            names.len() == sorted.len(),
            forall|i: int|
                0 <= i < pv.len() ==> (#[trigger] pv[i]).call == sorted[i].0 && pv[i].started
                    == sorted[i].1 && pv[i].filename@ == names[i],
            ops@.len() == it.index(),
            ops@.map_values(|o: PlannedOperation| o@) == operations(
                sorted.take(it.index() as int),
                names,
                files@, ov,
                force,
            ).0,
            reserved@.map_values(|s: String| s@) == operations(
                sorted.take(it.index() as int),
                names,
                files@, ov,
                force,
            ).1,
            reserved@.len() <= files.len() + others.len() + it.index(),
            ov == names_of(others@),
            reserved@.map_values(|s: String| s@) == base_keys(files@, ov) + new_keys(
                ops@.map_values(|o: PlannedOperation| o@),
            ),
            new_names_fresh(ops@.map_values(|o: PlannedOperation| o@), files@),
            new_names_clear(ops@.map_values(|o: PlannedOperation| o@), ov),
            it.index() <= pv.len(),
            pv.len() <= all.len(),
            all.len() + files.len() + others.len() < usize::MAX - 4,
            matched.len() == files.len(),
            forall|k: int|
                0 <= k < files.len() ==> (#[trigger] matched@[k] <==> is_matched(
                    ops@.map_values(|o: PlannedOperation| o@),
                    k,
                )),
    {
        let ghost k = it.index();
        let ghost prev = operations(sorted.take(k), names, files@, ov, force);
        assert(sorted.take(k + 1).drop_last() =~= sorted.take(k));
        assert(sorted.take(k + 1)[k] == sorted[k]);
        let PlannedCall { call, started, filename } = p;
        let m = match find_by_id(files, call.metadata.id.as_str()) {
            Some(i) => Some(i),
            None => find_by_name(files, filename.as_str()),
        };
        let action = match m {
            None => Action::New,
            Some(i) => if files[i].incomplete {
                Action::Heal
            } else if force {
                Action::Overwrite
            } else {
                Action::Skip
            },
        };
        let ghost before_ops = ops@.map_values(|o: PlannedOperation| o@);
        let ghost before_reserved = reserved@.map_values(|s: String| s@);
        let target = match m {
            Some(i) => {
                matched.set(i, true);
                Target::Existing(i)
            },
            None => {
                assert(reserved@.len() == reserved@.map_values(|s: String| s@).len());
                let n = reserve_filename(&filename, started, &call.metadata.id, &mut reserved);
                assert(reserved@.len() == reserved@.map_values(|s: String| s@).len());
                Target::New(n)
            },
        };
        let op = PlannedOperation { call, target, action };
        ops.push(op);
        assert(ops@.map_values(|o: PlannedOperation| o@) =~= before_ops.push(op@));
        proof {
            let now = ops@.map_values(|o: PlannedOperation| o@);
            assert(now.drop_last() =~= before_ops);
            let fk = file_keys(files@);
            let ok = name_keys(ov);
            let bk = base_keys(files@, ov);
            let nk0 = new_keys(before_ops);
            assert(bk == fk + ok);
            match op@.target {
                TargetView::New(n) => {
                    let key = collision_key(n);
                    assert(new_keys(now) == nk0.push(key));
                    assert(!before_reserved.contains(key));
                    assert(before_reserved == bk + nk0);
                    assert(!fk.contains(key)) by {
                        if fk.contains(key) {
                            let w = choose|w: int| 0 <= w < fk.len() && fk[w] == key;
                            assert(before_reserved[w] == key);
                        }
                    }
                    assert forall|i: int| 0 <= i < ov.len() implies collision_key(#[trigger] ov[i]) != key by {
                        assert(ok[i] == collision_key(ov[i]));
                        assert(before_reserved[fk.len() + i] == ok[i]);
                    }
                    assert(!nk0.contains(key)) by {
                        if nk0.contains(key) {
                            let w = choose|w: int| 0 <= w < nk0.len() && nk0[w] == key;
                            assert(before_reserved[bk.len() + w] == key);
                        }
                    }
                    assert(reserved@.map_values(|s: String| s@) =~= bk + nk0.push(key));
                    let nk = nk0.push(key);
                    assert(nk.no_duplicates()) by {
                        assert forall|i: int, j: int|
                            0 <= i < nk.len() && 0 <= j < nk.len() && i != j implies nk[i] != nk[j] by {
                            if i == nk0.len() {
                                assert(nk0.contains(nk[j]));
                            } else if j == nk0.len() {
                                assert(nk0.contains(nk[i]));
                            }
                        }
                    }
                    assert forall|k2: int| 0 <= k2 < nk.len() implies !fk.contains(#[trigger] nk[k2]) by {
                        if k2 < nk0.len() {
                            assert(nk[k2] == nk0[k2]);
                        }
                    }
                    assert forall|k2: int, i: int|
                        0 <= k2 < now.len() && 0 <= i < ov.len() && (#[trigger] now[k2]).target is New implies now[k2].target->New_0
                            != #[trigger] ov[i] && collision_key(now[k2].target->New_0) != collision_key(ov[i]) by {
                        if k2 < before_ops.len() {
                            assert(now[k2] == before_ops[k2]);
                        } else {
                            assert(now[k2].target->New_0 == n);
                        }
                    }
                },
                TargetView::Existing(_) => {
                    assert(new_keys(now) == nk0);
                    assert forall|k2: int, i: int|
                        0 <= k2 < now.len() && 0 <= i < ov.len() && (#[trigger] now[k2]).target is New implies now[k2].target->New_0
                            != #[trigger] ov[i] && collision_key(now[k2].target->New_0) != collision_key(ov[i]) by {
                        assert(now[k2] == before_ops[k2]);
                    }
                },
            }
        }
        assert(ops@.map_values(|o: PlannedOperation| o@) == operations(
            sorted.take(k + 1),
            names,
            files@, ov,
            force,
        ).0);
        assert forall|q: int| 0 <= q < files.len() implies (#[trigger] matched@[q] <==> is_matched(
            ops@.map_values(|o: PlannedOperation| o@),
            q,
        )) by {
            let now = ops@.map_values(|o: PlannedOperation| o@);
            if is_matched(before_ops, q) {
                let w = choose|w: int|
                    0 <= w < before_ops.len() && (#[trigger] before_ops[w]).target
                        == TargetView::Existing(q);
                assert(now[w] == before_ops[w]);
            }
            if is_matched(now, q) {
                let w = choose|w: int|
                    0 <= w < now.len() && (#[trigger] now[w]).target == TargetView::Existing(q);
                if w < before_ops.len() {
                    assert(now[w] == before_ops[w]);
                }
            }
            if m == Some(q as usize) {
                assert(now[now.len() - 1].target == TargetView::Existing(q));
            }
        }
    }
    assert(sorted.take(sorted.len() as int) =~= sorted);
    let ghost opv = ops@.map_values(|o: PlannedOperation| o@);
    let mut orphans: Vec<usize> = Vec::new();
    if full {
        let mut loose: Vec<usize> = Vec::new();
        let mut j: usize = 0;
        while j < files.len()
            invariant
                j <= files.len(),
                matched.len() == files.len(),
                forall|k: int|
                    0 <= k < files.len() ==> (#[trigger] matched@[k] <==> is_matched(opv, k)),
                loose@.map_values(|i: usize| i as int) == unmatched(opv, j as nat),
                forall|k: int| 0 <= k < loose.len() ==> (#[trigger] loose@[k]) < files.len(),
            decreases files.len() - j,
        {
            let ghost before = loose@;
            if !matched[j] {
                loose.push(j);
                assert(loose@.map_values(|i: usize| i as int) =~= before.map_values(
                    |i: usize| i as int,
                ).push(j as int));
            }
            j = j + 1;
        }
        let ghost lv = loose@.map_values(|i: usize| i as int);
        let mut q: usize = 0;
        while q < loose.len()
            invariant
                q <= loose.len(),
                lv == loose@.map_values(|i: usize| i as int),
                forall|k: int| 0 <= k < loose.len() ==> (#[trigger] loose@[k]) < files.len(),
                orphans@.map_values(|i: usize| i as int) == sort_by_name(lv.take(q as int), files@),
                forall|k: int| 0 <= k < orphans.len() ==> (#[trigger] orphans@[k]) < files.len(),
            decreases loose.len() - q,
        {
            let x = loose[q];
            let mut j2: usize = orphans.len();
            while j2 > 0 && compare_chars(
                &chars_of(files[orphans[j2 - 1]].filename.as_str()),
                &chars_of(files[x].filename.as_str()),
            ) > 0
                invariant
                    j2 <= orphans.len(),
                    x < files.len(),
                    forall|k: int| 0 <= k < orphans.len() ==> (#[trigger] orphans@[k]) < files.len(),
                    forall|m: int|
                        j2 <= m < orphans.len() ==> chars_order(
                            files@[(#[trigger] orphans@[m]) as int].filename@,
                            files@[x as int].filename@,
                        ) > 0,
                decreases j2,
            {
                j2 = j2 - 1;
            }
            let ghost ov = orphans@.map_values(|i: usize| i as int);
            proof {
                lemma_insert_by_name_at(ov, x as int, files@, j2 as int);
                assert(lv.take(q as int + 1).drop_last() =~= lv.take(q as int));
                assert(lv.take(q as int + 1).last() == x as int);
            }
            orphans.insert(j2, x);
            assert(orphans@.map_values(|i: usize| i as int) =~= ov.take(j2 as int).push(x as int)
                + ov.skip(j2 as int));
            q = q + 1;
        }
        assert(lv.take(loose.len() as int) =~= lv);
    }
    Ok(SyncPlan { operations: ops, orphans })
}

proof fn lemma_select_customer_len(calls: Seq<ExtensiveCall>)
    ensures
        select_customer(calls).len() <= calls.len(),
    decreases calls.len(),
{
    if calls.len() > 0 {
        lemma_select_customer_len(calls.drop_last());
    }
}

proof fn lemma_insert_timed_call_len(sorted: Seq<Timed>, x: Timed)
    ensures
        insert_timed_call(sorted, x).len() == sorted.len() + 1,
    decreases sorted.len(),
{
    if sorted.len() > 0 {
        lemma_insert_timed_call_len(sorted.drop_last(), x);
    }
}

proof fn lemma_sort_timed_calls_len(calls: Seq<Timed>)
    ensures
        sort_timed_calls(calls).len() == calls.len(),
    decreases calls.len(),
{
    if calls.len() > 0 {
        lemma_sort_timed_calls_len(calls.drop_last());
        lemma_insert_timed_call_len(sort_timed_calls(calls.drop_last()), calls.last());
    }
}

proof fn lemma_sorted_len(calls: Seq<ExtensiveCall>)
    ensures
        sorted_customer_calls(calls).len() <= calls.len(),
{
    lemma_select_customer_len(calls);
    lemma_sort_timed_calls_len(with_starts(select_customer(calls)));
}

proof fn lemma_insert_by_name_at(sorted: Seq<int>, x: int, files: Seq<ExistingFile>, j: int)
    requires
        0 <= j <= sorted.len(),
        forall|k: int|
            j <= k < sorted.len() ==> chars_order(
                files[#[trigger] sorted[k]].filename@,
                files[x].filename@,
            ) > 0,
        j == 0 || chars_order(files[sorted[j - 1]].filename@, files[x].filename@) <= 0,
    ensures
        insert_by_name(sorted, x, files) == sorted.take(j).push(x) + sorted.skip(j),
    decreases sorted.len(),
{
    if sorted.len() == 0 {
        assert(sorted.take(j).push(x) + sorted.skip(j) =~= seq![x]);
    } else if j == sorted.len() {
        assert(sorted.take(j).push(x) + sorted.skip(j) =~= sorted.push(x));
    } else {
        let d = sorted.drop_last();
        assert forall|k: int| j <= k < d.len() implies chars_order(
            files[#[trigger] d[k]].filename@,
            files[x].filename@,
        ) > 0 by {
            assert(d[k] == sorted[k]);
        }
        if j > 0 {
            assert(d[j - 1] == sorted[j - 1]);
        }
        lemma_insert_by_name_at(d, x, files, j);
        assert(d.take(j).push(x) + d.skip(j) + seq![sorted.last()] =~= sorted.take(j).push(x)
            + sorted.skip(j));
    }
}

// ---------------------------------------------------------------------------
// Counting and executing a plan.

/// How an action is tallied: healing and overwriting both rewrite an
/// existing Call File.
#[derive(Debug, Clone, Copy, PartialEq, Eq, Structural)]
pub enum Tally {
    Rewrite,
    New,
    Skip,
}

/// The tally an action falls under.
pub open spec fn tally_of(a: Action) -> Tally {
    match a {
        Action::Heal | Action::Overwrite => Tally::Rewrite,
        Action::New => Tally::New,
        Action::Skip => Tally::Skip,
    }
}

/// The number of operations that fall under one tally.
pub open spec fn count_tally(ops: Seq<OperationView>, t: Tally) -> nat
    decreases ops.len(),
{
    if ops.len() == 0 {
        0
    } else {
        count_tally(ops.drop_last(), t) + if tally_of(ops.last().action) == t {
            1nat
        } else {
            0nat
        }
    }
}

/// The report after recording one action: new counts as new, healing and
/// overwriting count as healed, skipping as skipped.
pub open spec fn recorded(r: SyncReport, a: Action) -> SyncReport {
    match a {
        Action::New => SyncReport { new: (r.new + 1) as usize, ..r },
        Action::Heal | Action::Overwrite => SyncReport { healed: (r.healed + 1) as usize, ..r },
        Action::Skip => SyncReport { skipped: (r.skipped + 1) as usize, ..r },
    }
}

/// Records one action in a report.
pub fn record_action(report: &mut SyncReport, action: Action)
    requires
        old(report).new < usize::MAX,
        old(report).healed < usize::MAX,
        old(report).skipped < usize::MAX,
    ensures
        *final(report) == recorded(*old(report), action),
{
    match action {
        Action::New => report.new = report.new + 1,
        Action::Heal | Action::Overwrite => report.healed = report.healed + 1,
        Action::Skip => report.skipped = report.skipped + 1,
    }
}

/// The word a progress line uses for an action.
pub fn action_name(action: Action) -> (r: &'static str)
    ensures
        action == Action::New ==> r@ == "new"@,
        action == Action::Heal ==> r@ == "healed"@,
        action == Action::Overwrite ==> r@ == "overwrote"@,
        action == Action::Skip ==> r@ == "skipped"@,
{
    match action {
        Action::New => "new",
        Action::Heal => "healed",
        Action::Overwrite => "overwrote",
        Action::Skip => "skipped",
    }
}

/// The report of a dry run: each planned action recorded once.
pub open spec fn preview_report(ops: Seq<OperationView>) -> SyncReport
    decreases ops.len(),
{
    if ops.len() == 0 {
        SyncReport { new: 0, healed: 0, skipped: 0, failed: 0 }
    } else {
        recorded(preview_report(ops.drop_last()), ops.last().action)
    }
}

proof fn lemma_preview_counts(ops: Seq<OperationView>)
    requires
        ops.len() < usize::MAX,
    ensures
        preview_report(ops).new == count_tally(ops, Tally::New),
        preview_report(ops).healed == count_tally(ops, Tally::Rewrite),
        preview_report(ops).skipped == count_tally(ops, Tally::Skip),
        preview_report(ops).failed == 0,
        count_tally(ops, Tally::Rewrite) <= ops.len(),
        count_tally(ops, Tally::New) <= ops.len(),
        count_tally(ops, Tally::Skip) <= ops.len(),
    decreases ops.len(),
{
    if ops.len() > 0 {
        lemma_preview_counts(ops.drop_last());
    }
}

/// Every operation falls under exactly one tally.
proof fn lemma_tallies_sum(ops: Seq<OperationView>)
    ensures
        count_tally(ops, Tally::New) + count_tally(ops, Tally::Rewrite) + count_tally(ops, Tally::Skip)
            == ops.len(),
    decreases ops.len(),
{
    if ops.len() > 0 {
        lemma_tallies_sum(ops.drop_last());
    }
}

/// A dry run reports the plan's own counts: as many new as the plan writes
/// new files, as many healed as it rewrites existing ones, every other
/// operation skipped, and no failure.
pub proof fn lemma_preview_counts_the_plan(ops: Seq<OperationView>)
    requires
        ops.len() < usize::MAX,
    ensures
        preview_report(ops).new == count_tally(ops, Tally::New),
        preview_report(ops).healed == count_tally(ops, Tally::Rewrite),
        preview_report(ops).skipped == ops.len() - count_tally(ops, Tally::New) - count_tally(
            ops,
            Tally::Rewrite,
        ),
        preview_report(ops).failed == 0,
{
    lemma_preview_counts(ops);
    lemma_tallies_sum(ops);
}

impl SyncPlan {
    /// The operations as values.
    pub open spec fn ops(&self) -> Seq<OperationView> {
        self.operations@.map_values(|o: PlannedOperation| o@)
    }

    fn count(&self, which: Tally) -> (r: usize)
        ensures
            r == count_tally(self.ops(), which),
    {
        let ghost ov = self.ops();
        let mut n: usize = 0;
        let mut i: usize = 0;
        while i < self.operations.len()
            invariant
                i <= self.operations.len(),
                ov == self.ops(),
                n <= i,
                n == count_tally(ov.take(i as int), which),
            decreases self.operations.len() - i,
        {
            assert(ov.take(i as int + 1).drop_last() =~= ov.take(i as int));
            assert(ov.take(i as int + 1).last().action == self.operations@[i as int].action);
            let a = self.operations[i].action;
            let tally = match a {
                Action::Heal | Action::Overwrite => Tally::Rewrite,
                Action::New => Tally::New,
                Action::Skip => Tally::Skip,
            };
            let hit = tally == which;
            if hit {
                n = n + 1;
            }
            i = i + 1;
        }
        assert(ov.take(self.operations.len() as int) =~= ov);
        n
    }

    /// How many existing Call Files the plan rewrites (healed or overwritten).
    pub fn overwrite_count(&self) -> (r: usize)
        ensures
            r == count_tally(self.ops(), Tally::Rewrite),
    {
        self.count(Tally::Rewrite)
    }

    /// How many new Call Files the plan writes.
    pub fn new_count(&self) -> (r: usize)
        ensures
            r == count_tally(self.ops(), Tally::New),
    {
        self.count(Tally::New)
    }

    /// How many orphans the plan reports.
    pub fn orphan_count(&self) -> (r: usize)
        ensures
            r == self.orphans@.len(),
    {
        self.orphans.len()
    }

    /// The report of a dry run: each planned action counted,
    /// nothing fetched or written.
    pub fn preview(&self) -> (r: SyncReport)
        requires
            self.operations.len() < usize::MAX,
        ensures
            r == preview_report(self.ops()),
    {
        let ghost ov = self.ops();
        let mut report = SyncReport::empty();
        let mut i: usize = 0;
        while i < self.operations.len()
            invariant
                i <= self.operations.len(),
                ov == self.ops(),
                report == preview_report(ov.take(i as int)),
                self.operations.len() < usize::MAX,
            decreases self.operations.len() - i,
        {
            assert(ov.take(i as int + 1).drop_last() =~= ov.take(i as int));
            assert(ov.take(i as int + 1).last().action == self.operations@[i as int].action);
            proof {
                lemma_preview_counts(ov.take(i as int));
            }
            record_action(&mut report, self.operations[i].action);
            i = i + 1;
        }
        assert(ov.take(self.operations.len() as int) =~= ov);
        report
    }

    /// The ids of the Calls whose Transcript must be fetched: those not
    /// skipped, in plan order.
    pub fn transcript_call_ids(&self) -> (r: Vec<String>)
        ensures
            r@.map_values(|s: String| s@) == needed_ids(self.ops()),
    {
        let ghost ov = self.ops();
        let mut ids: Vec<String> = Vec::new();
        let mut i: usize = 0;
        while i < self.operations.len()
            invariant
                i <= self.operations.len(),
                ov == self.ops(),
                ids@.map_values(|s: String| s@) == needed_ids(ov.take(i as int)),
            decreases self.operations.len() - i,
        {
            assert(ov.take(i as int + 1).drop_last() =~= ov.take(i as int));
            assert(ov.take(i as int + 1).last() == self.operations@[i as int]@);
            let op = &self.operations[i];
            match op.action {
                Action::Skip => {},
                _ => {
                    let ghost before = ids@;
                    ids.push(op.call.metadata.id.clone());
                    assert(ids@.map_values(|s: String| s@) =~= before.map_values(|s: String| s@).push(
                        op.call.metadata.id@,
                    ));
                },
            }
            i = i + 1;
        }
        assert(ov.take(self.operations.len() as int) =~= ov);
        ids
    }
}

/// The ids of the Calls an execution fetches Transcripts for.
pub open spec fn needed_ids(ops: Seq<OperationView>) -> Seq<Seq<char>>
    decreases ops.len(),
{
    if ops.len() == 0 {
        Seq::empty()
    } else if ops.last().action == Action::Skip {
        needed_ids(ops.drop_last())
    } else {
        needed_ids(ops.drop_last()).push(ops.last().call.metadata.id@)
    }
}

/// The Transcripts fetched are exactly those of the Calls whose operation
/// writes a Call File (new, healed or overwritten), in plan order: only
/// skipped Calls go without.
pub proof fn lemma_transcripts_for_every_written_call(ops: Seq<OperationView>)
    ensures
        needed_ids(ops) == ops.filter(|o: OperationView| o.action != Action::Skip).map_values(
            |o: OperationView| o.call.metadata.id@,
        ),
        forall|k: int|
            0 <= k < ops.len() && (#[trigger] ops[k]).action != Action::Skip ==> needed_ids(
                ops,
            ).contains(ops[k].call.metadata.id@),
    decreases ops.len(),
{
    let keep = |o: OperationView| o.action != Action::Skip;
    let id = |o: OperationView| o.call.metadata.id@;
    reveal(Seq::filter);
    if ops.len() > 0 {
        let init = ops.drop_last();
        lemma_transcripts_for_every_written_call(init);
        assert(ops.filter(keep).map_values(id) =~= needed_ids(ops)) by {
            if keep(ops.last()) {
                assert(ops.filter(keep) == init.filter(keep).push(ops.last()));
                assert(init.filter(keep).push(ops.last()).map_values(id) =~= init.filter(
                    keep,
                ).map_values(id).push(id(ops.last())));
            } else {
                assert(ops.filter(keep) == init.filter(keep));
            }
        }
        assert forall|k: int|
            0 <= k < ops.len() && (#[trigger] ops[k]).action != Action::Skip implies needed_ids(
            ops,
        ).contains(ops[k].call.metadata.id@) by {
            if k < ops.len() - 1 {
                assert(ops[k] == init[k]);
                let j = choose|j: int|
                    0 <= j < needed_ids(init).len() && needed_ids(init)[j]
                        == init[k].call.metadata.id@;
                assert(needed_ids(ops)[j] == needed_ids(init)[j]);
            } else {
                assert(ops[k] == ops.last());
                assert(needed_ids(ops).last() == ops[k].call.metadata.id@);
                assert(needed_ids(ops)[needed_ids(ops).len() - 1] == ops[k].call.metadata.id@);
            }
        }
    }
}

/// The batch size of the Transcript endpoint.
pub const TRANSCRIPT_BATCH: usize = 100;

/// The ids of batch `b`: positions `100 b` up to `100 b + 100`, or to the end.
pub open spec fn batch_ids(ids: Seq<String>, b: int) -> Seq<Seq<char>> {
    ids.subrange(100 * b, if 100 * b + 100 <= ids.len() { 100 * b + 100 } else { ids.len() as int }).map_values(
        |s: String| s@,
    )
}

/// Consecutive batches of at most 100 ids (`chunks(100)`): batch `b` holds
/// the ids from position `100 b`, and there are `ceil(n / 100)` batches.
pub fn transcript_batches(ids: &Vec<String>) -> (r: Vec<Vec<String>>)
    requires
        ids.len() < usize::MAX - 100,
    ensures
        r@.len() == (ids@.len() + 99) / 100,
        forall|b: int|
            0 <= b < r@.len() ==> (#[trigger] r@[b])@.map_values(|s: String| s@) == batch_ids(
                ids@,
                b,
            ),
{
    let mut out: Vec<Vec<String>> = Vec::new();
    let mut start: usize = 0;
    while start < ids.len()
        invariant
            ids.len() < usize::MAX - 100,
            start == 100 * out@.len(),
            out@.len() == 0 || start - 100 < ids.len(),
            forall|b: int|
                0 <= b < out@.len() ==> (#[trigger] out@[b])@.map_values(|s: String| s@)
                    == batch_ids(ids@, b),
        decreases ids.len() + 100 - start,
    {
        let end = if ids.len() - start >= 100 { start + 100 } else { ids.len() };
        let mut batch: Vec<String> = Vec::new();
        let mut k: usize = start;
        while k < end
            invariant
                start <= k <= end,
                end <= ids.len(),
                batch@.map_values(|s: String| s@) == ids@.subrange(start as int, k as int).map_values(
                    |s: String| s@,
                ),
            decreases end - k,
        {
            let ghost before = batch@;
            let item = ids[k].clone();
            batch.push(item);
            assert(ids@.subrange(start as int, k as int + 1) =~= ids@.subrange(start as int, k as int).push(
                ids@[k as int],
            ));
            assert(batch@.map_values(|s: String| s@) =~= before.map_values(|s: String| s@).push(item@));
            k = k + 1;
        }
        let ghost before_out = out@;
        out.push(batch);
        assert forall|b: int|
            0 <= b < out@.len() implies (#[trigger] out@[b])@.map_values(|s: String| s@)
            == batch_ids(ids@, b) by {
            if b < before_out.len() {
                assert(out@[b] == before_out[b]);
            }
        }
        start = start + 100;
    }
    assert(out@.len() == (ids@.len() + 99) / 100) by (nonlinear_arith)
        requires
            start == 100 * out@.len(),
            out@.len() == 0 || start - 100 < ids@.len(),
            start >= ids@.len(),
    ;
    out
}

/// The exit code of a finished sync: 0 when every Call was written or
/// skipped, 2 when some Call failed.
pub fn exit_code(report: SyncReport) -> (r: i32)
    ensures
        report.failed == 0 ==> r == 0,
        report.failed != 0 ==> r == 2,
{
    if report.failed == 0 { 0 } else { 2 }
}

/// The report after one executed operation: a skip counts as skipped, a
/// written Call File by its action, and a failure as failed.
pub open spec fn after_outcome(r: SyncReport, a: Action, written: bool) -> SyncReport {
    if a == Action::Skip {
        SyncReport { skipped: (r.skipped + 1) as usize, ..r }
    } else if written {
        recorded(r, a)
    } else {
        SyncReport { failed: (r.failed + 1) as usize, ..r }
    }
}

/// Records the outcome of one executed operation.
pub fn record_outcome(report: &mut SyncReport, action: Action, written: bool)
    requires
        old(report).new < usize::MAX,
        old(report).healed < usize::MAX,
        old(report).skipped < usize::MAX,
        old(report).failed < usize::MAX,
    ensures
        *final(report) == after_outcome(*old(report), action, written),
{
    match action {
        Action::Skip => report.skipped = report.skipped + 1,
        _ => if written {
            record_action(report, action);
        } else {
            report.failed = report.failed + 1;
        },
    }
}

/// The report of executing operations, each write succeeding or not as
/// `written` says.
pub open spec fn executed_report(ops: Seq<OperationView>, written: Seq<bool>) -> SyncReport
    decreases ops.len(),
{
    if ops.len() == 0 {
        SyncReport { new: 0, healed: 0, skipped: 0, failed: 0 }
    } else {
        after_outcome(
            executed_report(ops.drop_last(), written),
            ops.last().action,
            written[ops.len() - 1],
        )
    }
}

/// How many operations that write a Call File failed to.
pub open spec fn failed_writes(ops: Seq<OperationView>, written: Seq<bool>) -> nat
    decreases ops.len(),
{
    if ops.len() == 0 {
        0
    } else {
        failed_writes(ops.drop_last(), written) + if ops.last().action != Action::Skip
            && !written[ops.len() - 1] {
            1nat
        } else {
            0nat
        }
    }
}

/// A dry run previews what a sync reports: when every write succeeds,
/// executing a plan counts exactly the new, healed and skipped Calls of its
/// preview and no failure, so the run exits 0.
pub proof fn lemma_dry_run_previews_a_clean_run(ops: Seq<OperationView>, written: Seq<bool>)
    requires
        written.len() == ops.len(),
        forall|i: int| 0 <= i < written.len() ==> #[trigger] written[i],
    ensures
        executed_report(ops, written) == preview_report(ops),
        executed_report(ops, written).failed == 0,
    decreases ops.len(),
{
    if ops.len() > 0 {
        lemma_dry_run_previews_a_clean_run(ops.drop_last(), written.take(ops.len() - 1));
        lemma_executed_prefix(ops.drop_last(), written, written.take(ops.len() - 1));
        assert(written[ops.len() - 1]);
    }
}

/// Only the decisions of the operations at hand read `written`.
proof fn lemma_executed_prefix(ops: Seq<OperationView>, a: Seq<bool>, b: Seq<bool>)
    requires
        ops.len() <= a.len(),
        ops.len() <= b.len(),
        forall|i: int| 0 <= i < ops.len() ==> a[i] == b[i],
    ensures
        executed_report(ops, a) == executed_report(ops, b),
        failed_writes(ops, a) == failed_writes(ops, b),
    decreases ops.len(),
{
    if ops.len() > 0 {
        lemma_executed_prefix(ops.drop_last(), a, b);
    }
}

/// One Call's failure never hides another's: executing a plan counts one
/// failure per write that failed, whatever the others did.
pub proof fn lemma_each_failed_write_counted_once(ops: Seq<OperationView>, written: Seq<bool>)
    requires
        written.len() == ops.len(),
        ops.len() < usize::MAX,
    ensures
        executed_report(ops, written).failed == failed_writes(ops, written),
    decreases ops.len(),
{
    if ops.len() > 0 {
        lemma_each_failed_write_counted_once(ops.drop_last(), written.take(ops.len() - 1));
        lemma_executed_prefix(ops.drop_last(), written, written.take(ops.len() - 1));
        lemma_failed_writes_bound(ops.drop_last(), written);
    }
}

/// Every executed operation is counted once: the four counts of a run add
/// up to the number of operations, and exactly the skipped operations are
/// counted as skipped.
pub proof fn lemma_a_run_counts_every_operation_once(ops: Seq<OperationView>, written: Seq<bool>)
    requires
        written.len() == ops.len(),
        ops.len() < usize::MAX,
    ensures
        executed_report(ops, written).new + executed_report(ops, written).healed
            + executed_report(ops, written).skipped + executed_report(ops, written).failed
            == ops.len(),
        executed_report(ops, written).skipped == count_tally(ops, Tally::Skip),
        executed_report(ops, written).failed == failed_writes(ops, written),
    decreases ops.len(),
{
    if ops.len() > 0 {
        let w = written.take(ops.len() - 1);
        lemma_a_run_counts_every_operation_once(ops.drop_last(), w);
        lemma_executed_prefix(ops.drop_last(), written, w);
        lemma_each_failed_write_counted_once(ops, written);
    }
}

/// At most one failure per operation.
proof fn lemma_failed_writes_bound(ops: Seq<OperationView>, written: Seq<bool>)
    ensures
        failed_writes(ops, written) <= ops.len(),
    decreases ops.len(),
{
    if ops.len() > 0 {
        lemma_failed_writes_bound(ops.drop_last(), written);
    }
}

/// A match by id lies among the files.
proof fn lemma_match_by_id_range(files: Seq<ExistingFile>, id: Seq<char>)
    ensures
        match_by_id(files, id) matches Some(i) ==> 0 <= i < files.len(),
    decreases files.len(),
{
    if files.len() > 0 {
        lemma_match_by_id_range(files.drop_first(), id);
    }
}

/// A match by name lies among the files.
proof fn lemma_match_by_name_range(files: Seq<ExistingFile>, name: Seq<char>)
    ensures
        match_by_name(files, name) matches Some(i) ==> 0 <= i < files.len(),
    decreases files.len(),
{
    if files.len() > 0 {
        lemma_match_by_name_range(files.drop_last(), name);
    }
}

/// What sync does with a Call follows from its file: written new without a
/// matching file, healed when the matched file still holds the placeholder,
/// overwritten under `--force` when it is complete, and skipped otherwise.
pub open spec fn action_fits(op: OperationView, files: Seq<ExistingFile>, force: bool) -> bool {
    match op.target {
        TargetView::New(_) => op.action == Action::New,
        TargetView::Existing(j) => {
            &&& 0 <= j < files.len()
            &&& op.action == if files[j].incomplete {
                Action::Heal
            } else if force {
                Action::Overwrite
            } else {
                Action::Skip
            }
        },
    }
}

/// Each operation's action fits its target.
proof fn lemma_operations_fit(
    sorted: Seq<Timed>,
    names: Seq<Seq<char>>,
    files: Seq<ExistingFile>,
    others: Seq<Seq<char>>,
    force: bool,
)
    ensures
        forall|k: int|
            0 <= k < operations(sorted, names, files, others, force).0.len() ==> action_fits(
                #[trigger] operations(sorted, names, files, others, force).0[k],
                files,
                force,
            ),
    decreases sorted.len(),
{
    if sorted.len() > 0 {
        lemma_operations_fit(sorted.drop_last(), names, files, others, force);
        let prev = operations(sorted.drop_last(), names, files, others, force).0;
        let now = operations(sorted, names, files, others, force).0;
        let c = sorted[sorted.len() - 1].0;
        lemma_match_by_id_range(files, c.metadata.id@);
        lemma_match_by_name_range(files, names[sorted.len() - 1]);
        assert(now.drop_last() == prev);
        assert forall|k: int| 0 <= k < now.len() implies action_fits(#[trigger] now[k], files, force) by {
            if k < prev.len() {
                assert(now[k] == prev[k]);
            }
        }
    }
}

/// Sync heals what is incomplete and never rewrites a complete file unless
/// forced: in a plan, a Call without a matching file is written new; a
/// matched file still holding the placeholder is healed; a matched complete
/// file is overwritten under `--force` and skipped otherwise.
pub proof fn lemma_actions_follow_the_files(
    calls: Seq<ExtensiveCall>,
    files: Seq<ExistingFile>,
    others: Seq<Seq<char>>,
    force: bool,
)
    ensures
        forall|k: int|
            0 <= k < planned_operations(calls, files, others, force).len() ==> action_fits(
                #[trigger] planned_operations(calls, files, others, force)[k],
                files,
                force,
            ),
{
    let sorted = sorted_customer_calls(calls);
    lemma_operations_fit(sorted, planned_names(sorted).0, files, others, force);
}

} // verus!

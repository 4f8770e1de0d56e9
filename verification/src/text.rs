//! Character-level text helpers shared by the renderer, the sync planner and
//! the status file: whitespace handling, decimal formatting, YAML escaping.
use vstd::prelude::*;

verus! {

/// The Unicode `White_Space` property, the set that `char::is_whitespace`
/// and therefore `str::trim` and `str::split_whitespace` use.
pub open spec fn is_white(c: char) -> bool {
    let u = c as u32;
    ||| 0x9 <= u <= 0xd
    ||| u == 0x20
    ||| u == 0x85
    ||| u == 0xa0
    ||| u == 0x1680
    ||| 0x2000 <= u <= 0x200a
    ||| u == 0x2028
    ||| u == 0x2029
    ||| u == 0x202f
    ||| u == 0x205f
    ||| u == 0x3000
}

/// Drops leading whitespace.
pub open spec fn trim_start(s: Seq<char>) -> Seq<char>
    decreases s.len(),
{
    if s.len() > 0 && is_white(s[0]) {
        trim_start(s.drop_first())
    } else {
        s
    }
}

/// Drops trailing whitespace.
pub open spec fn trim_end(s: Seq<char>) -> Seq<char>
    decreases s.len(),
{
    if s.len() > 0 && is_white(s.last()) {
        trim_end(s.drop_last())
    } else {
        s
    }
}

/// What `str::trim` returns.
pub open spec fn trim(s: Seq<char>) -> Seq<char> {
    trim_end(trim_start(s))
}

/// Every maximal run of whitespace between two words becomes one space;
/// leading and trailing whitespace disappears.  This is
/// `s.split_whitespace().collect::<Vec<_>>().join(" ")`.
pub open spec fn collapse_ws(s: Seq<char>) -> Seq<char>
    decreases s.len(),
{
    if s.len() == 0 {
        Seq::empty()
    } else {
        let prefix = s.drop_last();
        let c = s.last();
        if is_white(c) {
            collapse_ws(prefix)
        } else if prefix.len() > 0 && is_white(prefix.last()) && collapse_ws(prefix).len() > 0 {
            collapse_ws(prefix).push(' ').push(c)
        } else {
            collapse_ws(prefix).push(c)
        }
    }
}

/// The character of a decimal digit.
pub open spec fn digit_char(d: nat) -> char {
    if d == 0 { '0' }
    else if d == 1 { '1' }
    else if d == 2 { '2' }
    else if d == 3 { '3' }
    else if d == 4 { '4' }
    else if d == 5 { '5' }
    else if d == 6 { '6' }
    else if d == 7 { '7' }
    else if d == 8 { '8' }
    else { '9' }
}

/// The decimal digits of `n`, with no leading zeros (`"0"` for zero).
pub open spec fn decimal(n: nat) -> Seq<char>
    decreases n,
{
    if n < 10 {
        seq![digit_char(n)]
    } else {
        decimal(n / 10).push(digit_char(n % 10))
    }
}

/// `decimal(n)` left-padded with zeros to at least `width` characters
/// (the `{:0width}` format).
pub open spec fn zero_pad(digits: Seq<char>, width: nat) -> Seq<char>
    decreases width,
{
    if digits.len() >= width {
        digits
    } else {
        seq!['0'] + zero_pad(digits, (width - 1) as nat)
    }
}

/// `M:SS` for a number of whole seconds.
pub open spec fn minutes_seconds(seconds: nat) -> Seq<char> {
    decimal(seconds / 60) + seq![':'] + zero_pad(decimal(seconds % 60), 2)
}

/// The escape that the front-matter emitter applies to one character.
pub open spec fn yaml_escape_char(c: char) -> Seq<char> {
    if c == '\\' {
        seq!['\\', '\\']
    } else if c == '"' {
        seq!['\\', '"']
    } else if c == '\n' {
        seq!['\\', 'n']
    } else if c == '\r' {
        seq!['\\', 'r']
    } else if c == '\t' {
        seq!['\\', 't']
    } else {
        seq![c]
    }
}

/// A value made safe for a double-quoted YAML scalar.
pub open spec fn yaml_escape(s: Seq<char>) -> Seq<char>
    decreases s.len(),
{
    if s.len() == 0 {
        Seq::empty()
    } else {
        yaml_escape(s.drop_last()) + yaml_escape_char(s.last())
    }
}

/// The character a two-character escape `\\x` stands for.
pub open spec fn yaml_unescape_code(c: char) -> Option<char> {
    if c == '\\' {
        Some('\\')
    } else if c == '"' {
        Some('"')
    } else if c == 'n' {
        Some('\n')
    } else if c == 'r' {
        Some('\r')
    } else if c == 't' {
        Some('\t')
    } else {
        None
    }
}

/// Reads the body of a double-quoted YAML scalar, left to right: an escape
/// stands for its character; a bare quote, line break or tab, or a
/// backslash that starts no escape, is refused.
pub open spec fn yaml_unescape(t: Seq<char>) -> Option<Seq<char>>
    decreases t.len(),
{
    if t.len() == 0 {
        Some(Seq::empty())
    } else if t[0] == '\\' {
        if t.len() < 2 {
            None
        } else {
            match (yaml_unescape_code(t[1]), yaml_unescape(t.skip(2))) {
                (Some(c), Some(rest)) => Some(seq![c] + rest),
                _ => None,
            }
        }
    } else if t[0] == '"' || t[0] == '\n' || t[0] == '\r' || t[0] == '\t' {
        None
    } else {
        match yaml_unescape(t.skip(1)) {
            Some(rest) => Some(seq![t[0]] + rest),
            None => None,
        }
    }
}

/// Escaping works character by character from the front too.
proof fn lemma_yaml_escape_front(s: Seq<char>)
    requires
        s.len() > 0,
    ensures
        yaml_escape(s) == yaml_escape_char(s[0]) + yaml_escape(s.drop_first()),
    decreases s.len(),
{
    if s.len() > 1 {
        lemma_yaml_escape_front(s.drop_last());
        assert(s.drop_last().drop_first() =~= s.drop_first().drop_last());
        assert(s.drop_last()[0] == s[0]);
        assert(s.drop_first().last() == s.last());
        assert(yaml_escape(s) =~= yaml_escape_char(s[0]) + yaml_escape(s.drop_first()));
    } else {
        assert(s.drop_first() =~= Seq::<char>::empty());
        assert(s.drop_last() =~= Seq::<char>::empty());
        assert(yaml_escape(s) =~= yaml_escape_char(s[0]) + yaml_escape(s.drop_first()));
    }
}

/// An escaped value reads back as itself, and holds no raw line break or
/// tab: so two values escape alike only when they are equal, and the
/// escaped text never closes the quoted scalar early.
pub proof fn lemma_yaml_escape_reads_back(s: Seq<char>)
    ensures
        yaml_unescape(yaml_escape(s)) == Some(s),
        forall|i: int|
            0 <= i < yaml_escape(s).len() ==> #[trigger] yaml_escape(s)[i] != '\n' && yaml_escape(
                s,
            )[i] != '\r' && yaml_escape(s)[i] != '\t',
    decreases s.len(),
{
    if s.len() == 0 {
        assert(yaml_escape(s) =~= Seq::<char>::empty());
        assert(s =~= Seq::<char>::empty());
    } else {
        let rest = s.drop_first();
        lemma_yaml_escape_front(s);
        lemma_yaml_escape_reads_back(rest);
        let e = yaml_escape_char(s[0]);
        let t = yaml_escape(s);
        assert(t.skip(e.len() as int) =~= yaml_escape(rest));
        assert(s =~= seq![s[0]] + rest);
        assert forall|i: int| 0 <= i < t.len() implies #[trigger] t[i] != '\n' && t[i] != '\r'
            && t[i] != '\t' by {
            if i >= e.len() {
                assert(t[i] == yaml_escape(rest)[i - e.len()]);
            }
        }
    }
}

/// Two values escape alike only when they are equal.
pub proof fn lemma_yaml_escape_injective(a: Seq<char>, b: Seq<char>)
    requires
        yaml_escape(a) == yaml_escape(b),
    ensures
        a == b,
{
    lemma_yaml_escape_reads_back(a);
    lemma_yaml_escape_reads_back(b);
}

/// The number of backslashes that stand right before position `i` of `t`.
pub open spec fn backslash_run(t: Seq<char>, i: int) -> nat
    decreases i,
{
    if 0 < i <= t.len() && t[i - 1] == '\\' {
        1 + backslash_run(t, i - 1)
    } else {
        0
    }
}

/// What follows position `i` does not change the backslashes before it.
proof fn lemma_backslash_run_prefix(t: Seq<char>, x: Seq<char>, i: int)
    requires
        0 <= i <= t.len(),
    ensures
        backslash_run(t + x, i) == backslash_run(t, i),
    decreases i,
{
    if i > 0 {
        assert((t + x)[i - 1] == t[i - 1]);
        lemma_backslash_run_prefix(t, x, i - 1);
    }
}

proof fn lemma_yaml_escape_runs(s: Seq<char>)
    ensures
        backslash_run(yaml_escape(s), yaml_escape(s).len() as int) % 2 == 0,
        forall|i: int|
            0 <= i < yaml_escape(s).len() && yaml_escape(s)[i] == '"' ==> #[trigger] backslash_run(
                yaml_escape(s),
                i,
            ) % 2 == 1,
    decreases s.len(),
{
    if s.len() > 0 {
        let e = yaml_escape(s.drop_last());
        let x = yaml_escape_char(s.last());
        let t = e + x;
        let n = e.len() as int;
        lemma_yaml_escape_runs(s.drop_last());
        assert(t == yaml_escape(s));
        lemma_backslash_run_prefix(e, x, n);
        assert forall|i: int| 0 <= i < n && t[i] == '"' implies #[trigger] backslash_run(t, i) % 2
            == 1 by {
            assert(t[i] == e[i]);
            lemma_backslash_run_prefix(e, x, i);
        }
        let c = s.last();
        if c == '\\' {
            assert(t[n] == '\\' && t[n + 1] == '\\');
            assert(backslash_run(t, n + 1) == 1 + backslash_run(t, n));
            assert(backslash_run(t, n + 2) == 1 + backslash_run(t, n + 1));
        } else if c == '"' {
            assert(t[n] == '\\' && t[n + 1] == '"');
            assert(backslash_run(t, n + 1) == 1 + backslash_run(t, n));
            assert(backslash_run(t, n + 2) == 0);
        } else if c == '\n' || c == '\r' || c == '\t' {
            assert(t[n] == '\\' && t[n + 1] != '"' && t[n + 1] != '\\');
            assert(backslash_run(t, n + 2) == 0);
        } else {
            assert(t[n] == c);
            assert(backslash_run(t, n + 1) == 0);
        }
    }
}

/// In an escaped value every `"` is escaped: an odd number of backslashes
/// stands right before it, so the quote never ends the YAML scalar.
pub proof fn lemma_yaml_escape_quotes_are_escaped(s: Seq<char>)
    ensures
        forall|i: int|
            0 <= i < yaml_escape(s).len() && yaml_escape(s)[i] == '"' ==> #[trigger] backslash_run(
                yaml_escape(s),
                i,
            ) % 2 == 1,
{
    lemma_yaml_escape_runs(s);
}

/// Appends one character.
#[verifier::external_body]
pub(crate) fn push_char(out: &mut String, c: char)
    ensures
        final(out)@ == old(out)@.push(c),
{
    out.push(c);
}

/// The characters of a string slice, in order.
pub fn chars_of(s: &str) -> (v: Vec<char>)
    ensures
        v@ == s@,
{
    let mut v: Vec<char> = Vec::new();
    for c in it: s.chars()
        invariant
            v@ == it.seq().take(it.index() as int),
    {
        v.push(c);
    }
    v
}

/// Appends a string slice.
pub fn push_str(out: &mut String, s: &str)
    ensures
        final(out)@ == old(out)@ + s@,
{
    out.append(s);
}

/// Appends a sequence of characters.
pub fn push_chars(out: &mut String, chars: &Vec<char>)
    ensures
        final(out)@ == old(out)@ + chars@,
{
    let ghost start = out@;
    let mut i: usize = 0;
    while i < chars.len()
        invariant
            i <= chars.len(),
            out@ == start + chars@.take(i as int),
        decreases chars.len() - i,
    {
        push_char(out, chars[i]);
        assert(chars@.take(i as int + 1) == chars@.take(i as int).push(chars@[i as int]));
        i = i + 1;
    }
    assert(chars@.take(chars.len() as int) == chars@);
}

/// A string holding exactly the given characters.
pub fn string_from_chars(chars: &Vec<char>) -> (s: String)
    ensures
        s@ == chars@,
{
    let mut s = String::new();
    push_chars(&mut s, chars);
    s
}

/// Whether two string slices hold the same characters.
pub fn str_eq(a: &str, b: &str) -> (r: bool)
    ensures
        r == (a@ == b@),
{
    let x = chars_of(a);
    let y = chars_of(b);
    if x.len() != y.len() {
        return false;
    }
    let mut i: usize = 0;
    while i < x.len()
        invariant
            x@ == a@,
            y@ == b@,
            x.len() == y.len(),
            i <= x.len(),
            forall|j: int| 0 <= j < i ==> x@[j] == y@[j],
        decreases x.len() - i,
    {
        if x[i] != y[i] {
            return false;
        }
        i = i + 1;
    }
    assert(x@ =~= y@);
    true
}

/// `char::is_whitespace`.
pub fn is_whitespace(c: char) -> (r: bool)
    ensures
        r == is_white(c),
{
    let u = c as u32;
    (0x9 <= u && u <= 0xd) || u == 0x20 || u == 0x85 || u == 0xa0 || u == 0x1680 || (0x2000
        <= u && u <= 0x200a) || u == 0x2028 || u == 0x2029 || u == 0x202f || u == 0x205f || u
        == 0x3000
}

proof fn lemma_trim_start_skip(s: Seq<char>, j: int)
    requires
        0 <= j <= s.len(),
        forall|k: int| 0 <= k < j ==> is_white(#[trigger] s[k]),
        j == s.len() || !is_white(s[j]),
    ensures
        trim_start(s) == s.skip(j),
    decreases j,
{
    if j == 0 {
        assert(s.skip(0) =~= s);
    } else {
        assert(s.drop_first().skip(j - 1) =~= s.skip(j));
        assert forall|k: int| 0 <= k < j - 1 implies is_white(#[trigger] s.drop_first()[k]) by {
            assert(s.drop_first()[k] == s[k + 1]);
        }
        lemma_trim_start_skip(s.drop_first(), j - 1);
    }
}

proof fn lemma_trim_end_take(s: Seq<char>, k: int)
    requires
        0 <= k <= s.len(),
        forall|m: int| k <= m < s.len() ==> is_white(#[trigger] s[m]),
        k == 0 || !is_white(s[k - 1]),
    ensures
        trim_end(s) == s.take(k),
    decreases s.len() - k,
{
    if k == s.len() {
        assert(s.take(k) =~= s);
    } else {
        assert(s.drop_last().take(k) =~= s.take(k));
        lemma_trim_end_take(s.drop_last(), k);
    }
}

/// `str::trim`: the characters between the first and the last non-whitespace
/// character.
pub fn trim_chars(s: &Vec<char>) -> (r: Vec<char>)
    ensures
        r@ == trim(s@),
{
    let n = s.len();
    let mut j: usize = 0;
    while j < n && is_whitespace(s[j])
        invariant
            n == s.len(),
            j <= n,
            forall|k: int| 0 <= k < j ==> is_white(#[trigger] s@[k]),
        decreases n - j,
    {
        j = j + 1;
    }
    proof {
        lemma_trim_start_skip(s@, j as int);
    }
    let mut k: usize = n;
    while k > j && is_whitespace(s[k - 1])
        invariant
            n == s.len(),
            j <= k <= n,
            forall|m: int| k <= m < n ==> is_white(#[trigger] s@[m]),
        decreases k,
    {
        k = k - 1;
    }
    let ghost t = s@.skip(j as int);
    proof {
        assert forall|m: int| k - j <= m < t.len() implies is_white(#[trigger] t[m]) by {
            assert(t[m] == s@[m + j]);
        }
        if k > j {
            assert(t[k - j - 1] == s@[k - 1]);
        }
        lemma_trim_end_take(t, k - j);
    }
    let mut r: Vec<char> = Vec::new();
    let mut i: usize = j;
    while i < k
        invariant
            n == s.len(),
            j <= i <= k <= n,
            r@ == s@.subrange(j as int, i as int),
        decreases k - i,
    {
        r.push(s[i]);
        assert(s@.subrange(j as int, i as int + 1) == s@.subrange(j as int, i as int).push(
            s@[i as int],
        ));
        i = i + 1;
    }
    assert(r@ =~= t.take(k - j));
    r
}

/// `str::trim`, returned as an owned string.
pub fn trim_str(s: &str) -> (r: String)
    ensures
        r@ == trim(s@),
{
    let chars = chars_of(s);
    let t = trim_chars(&chars);
    string_from_chars(&t)
}

/// `s.split_whitespace().collect::<Vec<_>>().join(" ")`.
pub fn collapse_whitespace(s: &Vec<char>) -> (r: Vec<char>)
    ensures
        r@ == collapse_ws(s@),
{
    let mut r: Vec<char> = Vec::new();
    let mut i: usize = 0;
    while i < s.len()
        invariant
            i <= s.len(),
            r@ == collapse_ws(s@.take(i as int)),
        decreases s.len() - i,
    {
        let c = s[i];
        let ghost prefix = s@.take(i as int);
        assert(s@.take(i as int + 1).drop_last() =~= prefix);
        assert(s@.take(i as int + 1).last() == c);
        if is_whitespace(c) {
        } else {
            if i > 0 && is_whitespace(s[i - 1]) && r.len() > 0 {
                assert(prefix.last() == s@[i - 1]);
                r.push(' ');
            } else {
                if i > 0 {
                    assert(prefix.last() == s@[i - 1]);
                }
            }
            r.push(c);
        }
        i = i + 1;
    }
    assert(s@.take(s.len() as int) =~= s@);
    r
}

/// Appends `yaml_escape(s)`.
pub fn push_yaml_escaped(out: &mut String, s: &str)
    ensures
        final(out)@ == old(out)@ + yaml_escape(s@),
{
    let chars = chars_of(s);
    let ghost start = out@;
    let mut i: usize = 0;
    while i < chars.len()
        invariant
            chars@ == s@,
            i <= chars.len(),
            out@ == start + yaml_escape(chars@.take(i as int)),
        decreases chars.len() - i,
    {
        let c = chars[i];
        let ghost before = out@;
        assert(chars@.take(i as int + 1).drop_last() =~= chars@.take(i as int));
        if c == '\\' {
            push_char(out, '\\');
            push_char(out, '\\');
        } else if c == '"' {
            push_char(out, '\\');
            push_char(out, '"');
        } else if c == '\n' {
            push_char(out, '\\');
            push_char(out, 'n');
        } else if c == '\r' {
            push_char(out, '\\');
            push_char(out, 'r');
        } else if c == '\t' {
            push_char(out, '\\');
            push_char(out, 't');
        } else {
            push_char(out, c);
        }
        assert(out@ =~= before + yaml_escape_char(c));
        i = i + 1;
    }
    assert(chars@.take(chars.len() as int) =~= chars@);
}

/// The escaped form of a value, as the front-matter emitter writes it.
pub fn escape_yaml(value: &str) -> (r: String)
    ensures
        r@ == yaml_escape(value@),
{
    let mut r = String::new();
    push_yaml_escaped(&mut r, value);
    r
}

/// The character of one decimal digit.
pub fn digit(d: u64) -> (c: char)
    requires
        d < 10,
    ensures
        c == digit_char(d as nat),
{
    if d == 0 { '0' }
    else if d == 1 { '1' }
    else if d == 2 { '2' }
    else if d == 3 { '3' }
    else if d == 4 { '4' }
    else if d == 5 { '5' }
    else if d == 6 { '6' }
    else if d == 7 { '7' }
    else if d == 8 { '8' }
    else { '9' }
}

/// The decimal digits of `n`.
pub fn decimal_chars(n: u64) -> (r: Vec<char>)
    ensures
        r@ == decimal(n as nat),
    decreases n,
{
    if n < 10 {
        let mut r = Vec::new();
        r.push(digit(n));
        r
    } else {
        let mut r = decimal_chars(n / 10);
        r.push(digit(n % 10));
        r
    }
}

/// Appends the decimal digits of `n`.
pub fn push_decimal(out: &mut String, n: u64)
    ensures
        final(out)@ == old(out)@ + decimal(n as nat),
{
    let digits = decimal_chars(n);
    push_chars(out, &digits);
}

proof fn lemma_decimal_len(n: nat)
    ensures
        decimal(n).len() >= 1,
        n < 10 <==> decimal(n).len() == 1,
    decreases n,
{
    if n >= 10 {
        lemma_decimal_len(n / 10);
    }
}

/// Every character of a decimal numeral is an ASCII digit.
pub proof fn lemma_decimal_digits(n: nat)
    ensures
        forall|i: int| 0 <= i < decimal(n).len() ==> '0' <= #[trigger] decimal(n)[i] <= '9',
    decreases n,
{
    if n >= 10 {
        lemma_decimal_digits(n / 10);
        assert forall|i: int| 0 <= i < decimal(n).len() implies '0' <= #[trigger] decimal(n)[i]
            <= '9' by {
            if i < decimal(n / 10).len() {
                assert(decimal(n)[i] == decimal(n / 10)[i]);
            }
        }
    }
}

/// Appends `n` zero-padded to two digits (`{:02}`).
pub fn push_two_digits(out: &mut String, n: u64)
    ensures
        final(out)@ == old(out)@ + zero_pad(decimal(n as nat), 2),
{
    proof {
        lemma_decimal_len(n as nat);
        if n >= 10 {
            lemma_decimal_len(n as nat / 10);
        }
    }
    let digits = decimal_chars(n);
    if n < 10 {
        assert(zero_pad(decimal(n as nat), 1) == decimal(n as nat));
        push_char(out, '0');
    } else {
        assert(decimal(n as nat).len() >= 2);
    }
    push_chars(out, &digits);
}

/// `M:SS` for a number of whole seconds.
pub fn push_minutes_seconds(out: &mut String, seconds: u64)
    ensures
        final(out)@ == old(out)@ + minutes_seconds(seconds as nat),
{
    push_decimal(out, seconds / 60);
    push_char(out, ':');
    push_two_digits(out, seconds % 60);
}

/// The `M:SS` stamp of a transcript turn that starts at `milliseconds`.
pub fn format_milliseconds(milliseconds: u64) -> (r: String)
    ensures
        r@ == minutes_seconds(milliseconds as nat / 1000),
{
    let mut r = String::new();
    push_minutes_seconds(&mut r, milliseconds / 1000);
    r
}

} // verus!

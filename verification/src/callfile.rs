//! Reading what sync needs from the Output Directory: the date in a Call
//! File's name, the `gong_call_id` of its front matter, and whether it still
//! holds the placeholder.
use vstd::prelude::*;
use vstd::utf8::{
    decode_utf8, encode_utf8, encode_utf8_decode_utf8, encode_utf8_valid_utf8, is_ascii_chars,
    is_ascii_chars_encode_utf8, is_char_boundary_iff_not_is_continuation_byte,
};
use vstd::string::StringSliceAdditionalSpecFns;
use crate::dates::{
    date_before, date_text, is_date_before, lemma_date_text_reads_back, parse_ymd,
    spec_parse_ymd, valid_date, ymd_form, ymd_value, CalendarDate, StartedAt,
};
use crate::api::{spec_account_name, spec_host_name, ExtensiveCall};
use crate::renderer::{
    body, bullets, contact_lines, field_line, frontmatter, key_point_texts, next_step_texts,
    optional_line, or_empty, outline_of, outline_toc, spec_canonical_filename, spec_markdown,
    spec_sanitize_title, spec_turns, summary_text, transcript_body, yaml_line, MergedCall,
    PLACEHOLDER,
};
use crate::status::{lemma_lines_line, lines, split_lines, unbroken};
use crate::sync::ExistingFile;
use crate::text::{
    chars_of, decimal, is_white, string_from_chars, trim, trim_chars, trim_end, trim_start,
    yaml_escape, yaml_escape_char,
};
use crate::status::lemma_decimal_unbroken;

verus! {

/// A line that opens or closes the front matter.
pub open spec fn is_delimiter(line: Seq<char>) -> bool {
    line == seq!['-', '-', '-']
}

/// The front-matter key that holds the Call id.
pub open spec fn id_key() -> Seq<char> {
    seq!['g', 'o', 'n', 'g', '_', 'c', 'a', 'l', 'l', '_', 'i', 'd', ':']
}

/// Drops leading `"` characters.
pub open spec fn trim_start_quotes(s: Seq<char>) -> Seq<char>
    decreases s.len(),
{
    if s.len() > 0 && s[0] == '"' {
        trim_start_quotes(s.drop_first())
    } else {
        s
    }
}

/// Drops trailing `"` characters.
pub open spec fn trim_end_quotes(s: Seq<char>) -> Seq<char>
    decreases s.len(),
{
    if s.len() > 0 && s.last() == '"' {
        trim_end_quotes(s.drop_last())
    } else {
        s
    }
}

/// `str::trim_matches('"')`.
pub open spec fn trim_quotes(s: Seq<char>) -> Seq<char> {
    trim_end_quotes(trim_start_quotes(s))
}

/// The Call id of the first `gong_call_id:` line between the first two
/// `---` lines, with whitespace and surrounding quotes removed.
pub open spec fn id_from_lines(ls: Seq<Seq<char>>, delimiters: nat) -> Option<Seq<char>>
    decreases ls.len(),
{
    if ls.len() == 0 {
        None
    } else if is_delimiter(ls[0]) {
        if delimiters + 1 == 2 {
            None
        } else {
            id_from_lines(ls.drop_first(), delimiters + 1)
        }
    } else if delimiters == 1 && ls[0].len() >= 13 && ls[0].take(13) == id_key() {
        Some(trim_quotes(trim(ls[0].skip(13))))
    } else {
        id_from_lines(ls.drop_first(), delimiters)
    }
}

/// The `gong_call_id` of a Call File's front matter.
pub open spec fn spec_frontmatter_call_id(contents: Seq<char>) -> Option<Seq<char>> {
    id_from_lines(lines(contents), 0)
}

/// Whether `pattern` occurs in `s`.
pub open spec fn contains_text(s: Seq<char>, pattern: Seq<char>) -> bool {
    exists|i: int|
        0 <= i && i + pattern.len() <= s.len() && #[trigger] s.subrange(i, i + pattern.len())
            == pattern
}

fn trim_quote_chars(s: &Vec<char>) -> (r: Vec<char>)
    ensures
        r@ == trim_quotes(s@),
{
    let n = s.len();
    let mut j: usize = 0;
    assert(s@.skip(0) =~= s@);
    while j < n && s[j] == '"'
        invariant
            n == s.len(),
            j <= n,
            trim_start_quotes(s@) == trim_start_quotes(s@.skip(j as int)),
        decreases n - j,
    {
        assert(s@.skip(j as int).drop_first() =~= s@.skip(j as int + 1));
        j = j + 1;
    }
    let ghost t = s@.skip(j as int);
    let mut k: usize = n;
    assert(t.take((k - j) as int) =~= t);
    while k > j && s[k - 1] == '"'
        invariant
            n == s.len(),
            j <= k <= n,
            t == s@.skip(j as int),
            trim_end_quotes(t) == trim_end_quotes(t.take(k - j)),
        decreases k,
    {
        assert(t.take(k - j).drop_last() =~= t.take(k - j - 1));
        assert(t.take(k - j).last() == s@[k - 1]);
        k = k - 1;
    }
    let mut r: Vec<char> = Vec::new();
    let mut i: usize = j;
    while i < k
        invariant
            n == s.len(),
            j <= i <= k <= n,
            r@ == s@.subrange(j as int, i as int),
        decreases k - i,
    {
        r.push(s[i]);
        assert(s@.subrange(j as int, i as int + 1) =~= s@.subrange(j as int, i as int).push(
            s@[i as int],
        ));
        i = i + 1;
    }
    assert(r@ =~= t.take(k - j));
    r
}

/// The `gong_call_id` of a Call File's front matter.
pub fn frontmatter_call_id(contents: &str) -> (r: Option<String>)
    ensures
        match r {
            Some(id) => spec_frontmatter_call_id(contents@) == Some(id@),
            None => spec_frontmatter_call_id(contents@) is None,
        },
{
    let chars = chars_of(contents);
    let ls = split_lines(&chars);
    let ghost lv = ls@.map_values(|l: Vec<char>| l@);
    let mut delimiters: usize = 0;
    let mut i: usize = 0;
    assert(lv.skip(0) =~= lv);
    while i < ls.len()
        invariant
            i <= ls.len(),
            delimiters <= 1,
            lv == ls@.map_values(|l: Vec<char>| l@),
            lv == lines(contents@),
            id_from_lines(lv, 0) == id_from_lines(lv.skip(i as int), delimiters as nat),
        decreases ls.len() - i,
    {
        let line = &ls[i];
        assert(lv.skip(i as int)[0] == line@);
        assert(lv.skip(i as int).drop_first() =~= lv.skip(i as int + 1));
        let is_delim = line.len() == 3 && line[0] == '-' && line[1] == '-' && line[2] == '-';
        assert(is_delim == is_delimiter(line@)) by {
            if line@.len() == 3 {
                if is_delimiter(line@) {
                    assert(line@[0] == '-' && line@[1] == '-' && line@[2] == '-');
                }
                if is_delim {
                    assert(line@ =~= seq!['-', '-', '-']);
                }
            }
        }
        if is_delim {
            delimiters = delimiters + 1;
            if delimiters == 2 {
                return None;
            }
        } else if delimiters == 1 && line.len() >= 13 && line[0] == 'g' && line[1] == 'o' && line[2]
            == 'n' && line[3] == 'g' && line[4] == '_' && line[5] == 'c' && line[6] == 'a' && line[7]
            == 'l' && line[8] == 'l' && line[9] == '_' && line[10] == 'i' && line[11] == 'd'
            && line[12] == ':' {
            assert(line@.take(13) =~= id_key());
            let mut rest: Vec<char> = Vec::new();
            let mut k: usize = 13;
            while k < line.len()
                invariant
                    13 <= k <= line.len(),
                    rest@ == line@.subrange(13, k as int),
                decreases line.len() - k,
            {
                rest.push(line[k]);
                assert(line@.subrange(13, k as int + 1) =~= line@.subrange(13, k as int).push(
                    line@[k as int],
                ));
                k = k + 1;
            }
            assert(rest@ =~= line@.skip(13));
            let trimmed = trim_chars(&rest);
            let unquoted = trim_quote_chars(&trimmed);
            return Some(string_from_chars(&unquoted));
        } else {
            proof {
                if delimiters == 1 && line@.len() >= 13 && line@.take(13) == id_key() {
                assert(line@[0] == line@.take(13)[0]);
                assert(line@[1] == line@.take(13)[1]);
                assert(line@[2] == line@.take(13)[2]);
                assert(line@[3] == line@.take(13)[3]);
                assert(line@[4] == line@.take(13)[4]);
                assert(line@[5] == line@.take(13)[5]);
                assert(line@[6] == line@.take(13)[6]);
                assert(line@[7] == line@.take(13)[7]);
                assert(line@[8] == line@.take(13)[8]);
                assert(line@[9] == line@.take(13)[9]);
                assert(line@[10] == line@.take(13)[10]);
                assert(line@[11] == line@.take(13)[11]);
                assert(line@[12] == line@.take(13)[12]);
            }
            }
        }
        i = i + 1;
    }
    None
}

/// Whether `pattern` occurs in `s`.
pub fn contains_str(s: &str, pattern: &str) -> (r: bool)
    ensures
        r == contains_text(s@, pattern@),
{
    let a = chars_of(s);
    let p = chars_of(pattern);
    if p.len() > a.len() {
        return false;
    }
    let mut i: usize = 0;
    while i <= a.len() - p.len()
        invariant
            a@ == s@,
            p@ == pattern@,
            p.len() <= a.len(),
            i <= a.len() - p.len() + 1,
            forall|j: int| 0 <= j < i ==> #[trigger] a@.subrange(j, j + p.len()) != p@,
        decreases a.len() - i,
    {
        let mut k: usize = 0;
        let mut same = true;
        while k < p.len()
            invariant
                i + p.len() <= a.len(),
                k <= p.len(),
                same == forall|m: int| 0 <= m < k ==> a@[i + m] == p@[m],
            decreases p.len() - k,
        {
            if a[i + k] != p[k] {
                same = false;
            }
            k = k + 1;
        }
        if same {
            assert(a@.subrange(i as int, i + p.len()) =~= p@);
            return true;
        }
        assert(a@.subrange(i as int, i + p.len()) != p@) by {
            let m = choose|m: int| 0 <= m < p.len() && a@[i + m] != p@[m];
            assert(a@.subrange(i as int, i + p.len())[m] == a@[i + m]);
        }
        i = i + 1;
    }
    assert forall|j: int|
        0 <= j && j + pattern@.len() <= s@.len() implies #[trigger] s@.subrange(j, j + pattern@.len())
        != pattern@ by {
        assert(j < i);
    }
    false
}

/// What a scan records of one Call File.
pub fn scan_call_file(filename: String, contents: &str) -> (r: ExistingFile)
    ensures
        r.filename == filename,
        match r.call_id {
            Some(id) => spec_frontmatter_call_id(contents@) == Some(id@),
            None => spec_frontmatter_call_id(contents@) is None,
        },
        r.incomplete == contains_text(contents@, PLACEHOLDER@),
{
    ExistingFile {
        filename,
        call_id: frontmatter_call_id(contents),
        incomplete: contains_str(contents, PLACEHOLDER),
    }
}

/// The date that the head of a Call File's name gives when parsed as
/// `%Y-%m-%d`: the date it spells when it is exactly `YYYY-MM-DD` of a valid
/// date, otherwise whatever the parser makes of it.
pub open spec fn date_of_head(head: Seq<char>) -> Option<CalendarDate> {
    if ymd_form(head) && valid_date(ymd_value(head)) {
        Some(ymd_value(head))
    } else {
        spec_parse_ymd(head)
    }
}

/// The date in a Call File's name: the name must be at least 14 bytes, have
/// ` - ` at bytes 10 to 12 and end in `.md`; its first ten bytes are then
/// parsed as `%Y-%m-%d`.
pub open spec fn spec_date_from_filename(filename: &str) -> Option<CalendarDate> {
    let b = filename.spec_bytes();
    if b.len() < 14 || b[10] != 32u8 || b[11] != 45u8 || b[12] != 32u8 || b[b.len() - 3]
        != 46u8 || b[b.len() - 2] != 109u8 || b[b.len() - 1] != 100u8 {
        None
    } else {
        date_of_head(decode_utf8(b.take(10)))
    }
}

/// The shape of a Call File's name: `YYYY-MM-DD - <title>.md`, the date in
/// ASCII digits.
pub open spec fn call_file_shape(name: Seq<char>) -> bool {
    &&& name.len() >= 16
    &&& ymd_form(name.take(10))
    &&& name.subrange(10, 13) == " - "@
    &&& name.skip(name.len() - 3) == ".md"@
}

/// The date in a Call File's name; any other name, whatever characters it
/// holds, gives `None`.  A name of the Call File shape whose digits name a
/// valid date gives that date.
pub fn date_from_filename(filename: &str) -> (r: Option<CalendarDate>)
    ensures
        r == spec_date_from_filename(filename),
        call_file_shape(filename@) && valid_date(ymd_value(filename@.take(10))) ==> r == Some(
            ymd_value(filename@.take(10)),
        ),
{
    proof {
        if call_file_shape(filename@) && valid_date(ymd_value(filename@.take(10))) {
            lemma_shaped_name_date(filename);
        }
    }
    let b = filename.as_bytes();
    let n = b.len();
    if n < 14 {
        return None;
    }
    if b[10] != 32u8 || b[11] != 45u8 || b[12] != 32u8 {
        return None;
    }
    if b[n - 3] != 46u8 || b[n - 2] != 109u8 || b[n - 1] != 100u8 {
        return None;
    }
    proof {
        encode_utf8_valid_utf8(filename@);
        is_char_boundary_iff_not_is_continuation_byte(filename.spec_bytes(), 10);
    }
    let (head, _) = filename.split_at(10);
    proof {
        vstd::utf8::encode_utf8_decode_utf8(head@);
    }
    parse_ymd(head)
}

proof fn lemma_encode_concat(a: Seq<char>, b: Seq<char>)
    ensures
        encode_utf8(a + b) == encode_utf8(a) + encode_utf8(b),
    decreases a.len(),
{
    if a.len() == 0 {
        assert(a + b =~= b);
        assert(encode_utf8(a) + encode_utf8(b) =~= encode_utf8(b));
    } else {
        assert((a + b).drop_first() =~= a.drop_first() + b);
        assert((a + b)[0] == a[0]);
        lemma_encode_concat(a.drop_first(), b);
        assert(encode_utf8(a + b) =~= encode_utf8(a) + encode_utf8(b));
    }
}

/// `date_text` of a four-digit year is ASCII.
proof fn lemma_date_text_ascii(d: CalendarDate)
    requires
        0 <= d.year <= 9999,
        d.month < 100,
        d.day < 100,
    ensures
        date_text(d).len() == 10,
        is_ascii_chars(date_text(d)),
        ymd_form(date_text(d)),
        ymd_value(date_text(d)) == d,
{
    lemma_date_text_reads_back(d);
}

/// A name of the Call File shape whose digits name a valid date reads as
/// that date.
pub proof fn lemma_shaped_name_date(name: &str)
    requires
        call_file_shape(name@),
        valid_date(ymd_value(name@.take(10))),
    ensures
        spec_date_from_filename(name) == Some(ymd_value(name@.take(10))),
{
    reveal_strlit(" - ");
    reveal_strlit(".md");
    let n = name@.len() as int;
    let d = name@.take(10);
    let sp = " - "@;
    let title = name@.subrange(13, n - 3);
    let sfx = ".md"@;
    assert(name@.subrange(10, 13) == sp);
    assert(name@.skip(n - 3) == sfx);
    assert(is_ascii_chars(d)) by {
        assert forall|i: int| 0 <= i < d.len() implies '\0' <= #[trigger] d[i] <= '\u{7f}' by {}
    }
    assert(is_ascii_chars(sp));
    assert(is_ascii_chars(sfx));
    is_ascii_chars_encode_utf8(d);
    is_ascii_chars_encode_utf8(sp);
    is_ascii_chars_encode_utf8(sfx);
    let b = name.spec_bytes();
    assert(name@ =~= d + (sp + (title + sfx)));
    assert(name@ =~= (d + sp) + (title + sfx));
    assert(name@ =~= ((d + sp) + title) + sfx);
    lemma_encode_concat(d, sp);
    lemma_encode_concat(d, sp + (title + sfx));
    lemma_encode_concat(sp, title + sfx);
    lemma_encode_concat(title, sfx);
    lemma_encode_concat(d + sp, title + sfx);
    lemma_encode_concat((d + sp) + title, sfx);
    assert(b == encode_utf8((d + sp) + title) + encode_utf8(sfx));
    assert(b.take(10) =~= encode_utf8(d));
    encode_utf8_decode_utf8(d);
}

/// A Call File's name reads back as the date it was named for: in a name
/// that `canonical_filename` wrote for a Call started on a date of a
/// four-digit year, the scan of the Output Directory finds that date.
pub proof fn lemma_filename_date_reads_back(call: ExtensiveCall, t: StartedAt, name: &str)
    requires
        name@ == spec_canonical_filename(call, t),
        0 <= t.date.year <= 9999,
        valid_date(t.date),
    ensures
        call_file_shape(name@),
        spec_date_from_filename(name) == Some(t.date),
{
    reveal_strlit(" - ");
    reveal_strlit(".md");
    let d = date_text(t.date);
    let title = spec_sanitize_title(call.metadata.title@);
    let n = name@.len() as int;
    lemma_date_text_ascii(t.date);
    assert(name@ =~= d + " - "@ + title + ".md"@);
    assert(name@.take(10) =~= d);
    assert(name@.subrange(10, 13) =~= " - "@);
    assert(name@.skip(n - 3) =~= ".md"@);
    lemma_shaped_name_date(name);
}

/// The newest date in a list (`high_water_mark` over the dated file names).
pub open spec fn newest(dates: Seq<CalendarDate>) -> Option<CalendarDate>
    decreases dates.len(),
{
    if dates.len() == 0 {
        None
    } else {
        match newest(dates.drop_last()) {
            None => Some(dates.last()),
            Some(c) => if date_before(dates.last(), c) {
                Some(c)
            } else {
                Some(dates.last())
            },
        }
    }
}

/// The High-Water Mark: the newest of the dates found in Call File names.
pub fn newest_date(dates: &Vec<CalendarDate>) -> (r: Option<CalendarDate>)
    ensures
        r == newest(dates@),
{
    let mut best: Option<CalendarDate> = None;
    let mut i: usize = 0;
    while i < dates.len()
        invariant
            i <= dates.len(),
            best == newest(dates@.take(i as int)),
        decreases dates.len() - i,
    {
        assert(dates@.take(i as int + 1).drop_last() =~= dates@.take(i as int));
        let d = dates[i];
        best = match best {
            None => Some(d),
            Some(c) => if is_date_before(d, c) {
                Some(c)
            } else {
                Some(d)
            },
        };
        i = i + 1;
    }
    assert(dates@.take(dates.len() as int) =~= dates@);
    best
}

/// Whether a dated Call File lies in the scanned window (every date when
/// there is no window).
pub open spec fn in_window(date: CalendarDate, window: Option<(CalendarDate, CalendarDate)>) -> bool {
    match window {
        None => true,
        Some((from, to)) => !date_before(date, from) && !date_before(to, date),
    }
}

/// The scanned window holds both of its end dates: a date lies in it
/// exactly when it falls on or after the first date and on or before the
/// last, in calendar order (year, then month, then day).
pub proof fn lemma_window_holds_both_ends(d: CalendarDate, from: CalendarDate, to: CalendarDate)
    ensures
        in_window(d, Some((from, to))) <==> {
            &&& (from.year < d.year || (from.year == d.year && (from.month < d.month || (from.month
                == d.month && from.day <= d.day))))
            &&& (d.year < to.year || (d.year == to.year && (d.month < to.month || (d.month
                == to.month && d.day <= to.day))))
        },
        in_window(d, None),
{
}

/// Whether `scan_existing` reads a file of this name: it carries a date, and
/// the date lies in the window.
pub fn scanned_date(filename: &str, window: Option<(CalendarDate, CalendarDate)>) -> (r: Option<
    CalendarDate,
>)
    ensures
        call_file_shape(filename@) && valid_date(ymd_value(filename@.take(10))) ==> r == if in_window(
            ymd_value(filename@.take(10)),
            window,
        ) {
            Some(ymd_value(filename@.take(10)))
        } else {
            None
        },
        match spec_date_from_filename(filename) {
            Some(d) => if in_window(d, window) {
                r == Some(d)
            } else {
                r is None
            },
            None => r is None,
        },
{
    match date_from_filename(filename) {
        None => None,
        Some(d) => match window {
            None => Some(d),
            Some((from, to)) => if is_date_before(d, from) || is_date_before(to, d) {
                None
            } else {
                Some(d)
            },
        },
    }
}

// ---------------------------------------------------------------------------
// Reading back what the renderer wrote.

/// An id that the front matter writes unescaped: no backslash, quote, line
/// break, carriage return or tab.
pub open spec fn plain_id(id: Seq<char>) -> bool {
    forall|i: int|
        0 <= i < id.len() ==> {
            let c = #[trigger] id[i];
            c != '\\' && c != '"' && c != '\n' && c != '\r' && c != '\t'
        }
}

/// Escaping leaves a plain id as it is.
proof fn lemma_escape_plain(s: Seq<char>)
    requires
        plain_id(s),
    ensures
        yaml_escape(s) == s,
    decreases s.len(),
{
    if s.len() > 0 {
        assert(plain_id(s.drop_last())) by {
            assert forall|i: int| 0 <= i < s.drop_last().len() implies {
                let c = #[trigger] s.drop_last()[i];
                c != '\\' && c != '"' && c != '\n' && c != '\r' && c != '\t'
            } by {
                assert(s.drop_last()[i] == s[i]);
            }
        }
        lemma_escape_plain(s.drop_last());
        let c = s.last();
        assert(s[s.len() - 1] == c);
        assert(yaml_escape_char(c) == seq![c]);
        assert(s.drop_last().push(c) =~= s);
    }
}

/// An escaped value holds no line break or carriage return.
proof fn lemma_escape_unbroken(s: Seq<char>)
    ensures
        unbroken(yaml_escape(s)),
    decreases s.len(),
{
    if s.len() > 0 {
        lemma_escape_unbroken(s.drop_last());
        let e = yaml_escape(s.drop_last());
        let t = yaml_escape_char(s.last());
        assert(unbroken(t));
        assert forall|i: int| 0 <= i < (e + t).len() implies (e + t)[i] != '\n' && (e + t)[i]
            != '\r' by {
            if i < e.len() {
                assert((e + t)[i] == e[i]);
            } else {
                assert((e + t)[i] == t[i - e.len()]);
            }
        }
    }
}

/// A front-matter line without its line break.
pub open spec fn quoted_line(key: Seq<char>, value: Seq<char>) -> Seq<char> {
    key + seq![':', ' ', '"'] + yaml_escape(value) + seq!['"']
}

/// A front-matter line is its quoted text and a line break; the text holds
/// no break and starts with the key.
proof fn lemma_yaml_line(key: Seq<char>, value: Seq<char>)
    requires
        unbroken(key),
        key.len() > 0,
    ensures
        yaml_line(key, value) == quoted_line(key, value) + seq!['\n'],
        unbroken(quoted_line(key, value)),
        quoted_line(key, value)[0] == key[0],
{
    reveal(field_line);
    reveal_strlit(": \"");
    reveal_strlit("\"\n");
    assert(yaml_line(key, value) =~= quoted_line(key, value) + seq!['\n']);
    lemma_escape_unbroken(value);
    let q = quoted_line(key, value);
    let e = yaml_escape(value);
    assert forall|i: int| 0 <= i < q.len() implies q[i] != '\n' && q[i] != '\r' by {
        if i < key.len() {
            assert(q[i] == key[i]);
        } else if i < key.len() + 3 {
        } else if i < key.len() + 3 + e.len() {
            assert(q[i] == e[i - key.len() - 3]);
        }
    }
}

/// A line that neither delimits the front matter nor starts with `g` is
/// passed over while looking for the id.
proof fn lemma_pass_line(l: Seq<char>, rest: Seq<char>)
    requires
        unbroken(l),
        l.len() > 0,
        l[0] != '-',
        l[0] != 'g',
    ensures
        id_from_lines(lines(l + seq!['\n'] + rest), 1) == id_from_lines(lines(rest), 1),
{
    lemma_lines_line(l, rest);
    let ls = seq![l] + lines(rest);
    assert(ls[0] == l);
    assert(ls.drop_first() =~= lines(rest));
    assert(!is_delimiter(l));
    if l.len() >= 13 {
        assert(l.take(13)[0] == l[0]);
        assert(id_key()[0] == 'g');
    }
}

/// A front-matter line whose key neither starts with `-` nor `g` is passed
/// over while looking for the id.
proof fn lemma_pass_yaml_line(key: Seq<char>, value: Seq<char>, rest: Seq<char>)
    requires
        unbroken(key),
        key.len() > 0,
        key[0] != '-',
        key[0] != 'g',
    ensures
        id_from_lines(lines(yaml_line(key, value) + rest), 1) == id_from_lines(lines(rest), 1),
{
    lemma_yaml_line(key, value);
    assert(yaml_line(key, value) + rest =~= quoted_line(key, value) + seq!['\n'] + rest);
    lemma_pass_line(quoted_line(key, value), rest);
}

/// The same for a line that is present only with its value.
proof fn lemma_pass_optional_line(key: Seq<char>, value: Option<Seq<char>>, rest: Seq<char>)
    requires
        unbroken(key),
        key.len() > 0,
        key[0] != '-',
        key[0] != 'g',
    ensures
        id_from_lines(lines(optional_line(key, value) + rest), 1) == id_from_lines(lines(rest), 1),
{
    match value {
        Some(v) => lemma_pass_yaml_line(key, v, rest),
        None => {
            assert(optional_line(key, value) + rest =~= rest);
        },
    }
}

/// Trimming ` "x"` keeps `"x"`, and dropping the quotes of `"x"` keeps `x`
/// when `x` holds no quote.
proof fn lemma_unquote(x: Seq<char>)
    requires
        forall|i: int| 0 <= i < x.len() ==> x[i] != '"',
    ensures
        trim_quotes(trim(seq![' ', '"'] + x + seq!['"'])) == x,
{
    let q = seq!['"'] + x + seq!['"'];
    let s = seq![' ', '"'] + x + seq!['"'];
    assert(s[0] == ' ' && is_white(' '));
    assert(s.drop_first() =~= q);
    assert(!is_white(q[0]));
    assert(trim_start(q) == q);
    assert(trim_start(s) == q);
    assert(q.last() == '"' && !is_white('"'));
    assert(trim_end(q) == q);
    assert(trim(s) == q);
    let t = x + seq!['"'];
    assert(q.drop_first() =~= t);
    if x.len() > 0 {
        assert(t[0] == x[0]);
        assert(trim_start_quotes(t) == t);
    } else {
        assert(t.drop_first() =~= Seq::<char>::empty());
        assert(trim_start_quotes(t.drop_first()) == Seq::<char>::empty());
    }
    assert(trim_start_quotes(q) == trim_start_quotes(t));
    if x.len() > 0 {
        assert(t.drop_last() =~= x);
        assert(x.last() == x[x.len() - 1]);
        assert(trim_end_quotes(x) == x);
        assert(trim_end_quotes(t) == x);
    } else {
        assert(trim_end_quotes(Seq::<char>::empty()) == Seq::<char>::empty());
    }
}

/// The id line is found and read back as the id.
proof fn lemma_id_line(id: Seq<char>, rest: Seq<char>)
    requires
        plain_id(id),
    ensures
        id_from_lines(lines(yaml_line("gong_call_id"@, id) + rest), 1) == Some(id),
{
    reveal_strlit("gong_call_id");
    let key = "gong_call_id"@;
    assert(unbroken(key));
    lemma_yaml_line(key, id);
    lemma_escape_plain(id);
    let l = quoted_line(key, id);
    assert(yaml_line(key, id) + rest =~= l + seq!['\n'] + rest);
    lemma_lines_line(l, rest);
    let ls = seq![l] + lines(rest);
    assert(ls[0] == l);
    assert(!is_delimiter(l));
    assert(l.take(13) =~= id_key());
    assert(l.skip(13) =~= seq![' ', '"'] + id + seq!['"']);
    assert forall|i: int| 0 <= i < id.len() implies id[i] != '"' by {
        let c = id[i];
    }
    lemma_unquote(id);
}

/// The front-matter lines that follow the id line, and the body.
pub open spec fn after_id_lines(merged: MergedCall) -> Seq<char> {
    let call = merged.call;
    yaml_line("gong_url"@, or_empty(call.metadata.url)) + yaml_line(
        "document_type"@,
        "meeting-notes"@,
    ) + yaml_line("source_type"@, "gong-transcript"@) + contact_lines(call) + "---\n\n"@ + body(
        call,
        spec_turns(call.parties@, merged.transcript.transcript@),
    )
}

/// The `duration_minutes` line without its line break.
pub open spec fn duration_line(call: ExtensiveCall) -> Seq<char> {
    "duration_minutes: "@ + decimal(call.metadata.duration as nat / 60)
}

/// The Call File from the id line on.
pub open spec fn from_id_line(merged: MergedCall) -> Seq<char> {
    yaml_line("gong_call_id"@, merged.call.metadata.id@) + after_id_lines(merged)
}

/// The Call File from the `meeting_provider` line on.
pub open spec fn from_provider_line(merged: MergedCall) -> Seq<char> {
    let call = merged.call;
    yaml_line("meeting_provider"@, or_empty(call.metadata.system)) + optional_line(
        "host"@,
        spec_host_name(call),
    ) + from_id_line(merged)
}

/// The Call File from the `duration_minutes` line on.
pub open spec fn from_duration_line(merged: MergedCall) -> Seq<char> {
    duration_line(merged.call) + seq!['\n'] + from_provider_line(merged)
}

/// The Call File from the `started` line on.
pub open spec fn from_started_line(merged: MergedCall) -> Seq<char> {
    yaml_line("started"@, merged.call.metadata.started@) + from_duration_line(merged)
}

/// The Call File from the `date` line on.
pub open spec fn from_date_line(merged: MergedCall, date: Seq<char>) -> Seq<char> {
    yaml_line("date"@, date) + from_started_line(merged)
}

/// The Call File from the `account` line (when there is one) on.
pub open spec fn from_account_line(merged: MergedCall, date: Seq<char>) -> Seq<char> {
    optional_line("account"@, spec_account_name(merged.call)) + from_date_line(merged, date)
}

/// The Call File from the `title` line on.
pub open spec fn from_title_line(merged: MergedCall, date: Seq<char>) -> Seq<char> {
    yaml_line("title"@, merged.call.metadata.title@) + from_account_line(merged, date)
}

/// Regrouping the pieces of a Call File around its front-matter lines.
#[verifier::spinoff_prover]
proof fn lemma_regroup(
    dl: Seq<char>,
    t: Seq<char>,
    a: Seq<char>,
    d: Seq<char>,
    s: Seq<char>,
    du: Seq<char>,
    dec: Seq<char>,
    nl: Seq<char>,
    p: Seq<char>,
    h: Seq<char>,
    i: Seq<char>,
    u: Seq<char>,
    dt: Seq<char>,
    st: Seq<char>,
    c: Seq<char>,
    close: Seq<char>,
    b: Seq<char>,
    r1: Seq<char>,
    r3: Seq<char>,
    r4: Seq<char>,
    r8: Seq<char>,
)
    requires
        dl == seq!['-', '-', '-', '\n'],
        nl == seq!['\n'],
        r1 == i + (u + dt + st + c + close + b),
        r3 == p + h + r1,
        r4 == du + dec + seq!['\n'] + r3,
        r8 == t + (a + (d + (s + r4))),
    ensures
        dl + (t + a + d + s + du + dec + nl + p + h + i + u + dt + st) + c + close + b == seq![
            '-',
            '-',
            '-',
        ] + seq!['\n'] + r8,
{
    let whole = dl + (t + a + d + s + du + dec + nl + p + h + i + u + dt + st) + c + close + b;
    assert(whole =~= seq!['-', '-', '-'] + seq!['\n'] + r8);
}

/// A Call File is the opening delimiter line and the lines from `title` on.
proof fn lemma_markdown_shape(merged: MergedCall, date: Seq<char>)
    ensures
        spec_markdown(merged, date) == seq!['-', '-', '-'] + seq!['\n'] + from_title_line(
            merged,
            date,
        ),
{
    let call = merged.call;
    let m = call.metadata;
    reveal_strlit("---\n");
    reveal_strlit("\n");
    assert("---\n"@ =~= seq!['-', '-', '-', '\n']);
    assert("\n"@ =~= seq!['\n']);
    lemma_regroup(
        "---\n"@,
        yaml_line("title"@, m.title@),
        optional_line("account"@, spec_account_name(call)),
        yaml_line("date"@, date),
        yaml_line("started"@, m.started@),
        "duration_minutes: "@,
        decimal(m.duration as nat / 60),
        "\n"@,
        yaml_line("meeting_provider"@, or_empty(m.system)),
        optional_line("host"@, spec_host_name(call)),
        yaml_line("gong_call_id"@, m.id@),
        yaml_line("gong_url"@, or_empty(m.url)),
        yaml_line("document_type"@, "meeting-notes"@),
        yaml_line("source_type"@, "gong-transcript"@),
        contact_lines(call),
        "---\n\n"@,
        body(call, spec_turns(call.parties@, merged.transcript.transcript@)),
        from_id_line(merged),
        from_provider_line(merged),
        from_duration_line(merged),
        from_title_line(merged, date),
    );
}

/// Looking for the id from the `meeting_provider` line on finds it.
proof fn lemma_id_from_provider_line(merged: MergedCall)
    requires
        plain_id(merged.call.metadata.id@),
    ensures
        id_from_lines(lines(from_provider_line(merged)), 1) == Some(merged.call.metadata.id@),
{
    let call = merged.call;
    lemma_id_line(call.metadata.id@, after_id_lines(merged));
    reveal_strlit("host");
    lemma_pass_optional_line("host"@, spec_host_name(call), from_id_line(merged));
    reveal_strlit("meeting_provider");
    let s7 = optional_line("host"@, spec_host_name(call)) + from_id_line(merged);
    lemma_pass_yaml_line("meeting_provider"@, or_empty(call.metadata.system), s7);
    assert(from_provider_line(merged) =~= yaml_line(
        "meeting_provider"@,
        or_empty(call.metadata.system),
    ) + s7);
}

/// Looking for the id from the `duration_minutes` line on finds it.
proof fn lemma_id_from_duration_line(merged: MergedCall)
    requires
        plain_id(merged.call.metadata.id@),
    ensures
        id_from_lines(lines(from_duration_line(merged)), 1) == Some(merged.call.metadata.id@),
{
    let m = merged.call.metadata;
    lemma_id_from_provider_line(merged);
    let dur = duration_line(merged.call);
    reveal_strlit("duration_minutes: ");
    lemma_decimal_unbroken(m.duration as nat / 60);
    assert forall|i: int| 0 <= i < dur.len() implies dur[i] != '\n' && dur[i] != '\r' by {
        if i >= 18 {
            assert(dur[i] == decimal(m.duration as nat / 60)[i - 18]);
        }
    }
    assert(dur[0] == 'd');
    lemma_pass_line(dur, from_provider_line(merged));
}

/// Looking for the id from the `started` line on finds it.
proof fn lemma_id_from_started_line(merged: MergedCall)
    requires
        plain_id(merged.call.metadata.id@),
    ensures
        id_from_lines(lines(from_started_line(merged)), 1) == Some(merged.call.metadata.id@),
{
    lemma_id_from_duration_line(merged);
    reveal_strlit("started");
    lemma_pass_yaml_line("started"@, merged.call.metadata.started@, from_duration_line(merged));
}

/// Looking for the id from the `date` line on finds it.
proof fn lemma_id_from_date_line(merged: MergedCall, date: Seq<char>)
    requires
        plain_id(merged.call.metadata.id@),
    ensures
        id_from_lines(lines(from_date_line(merged, date)), 1) == Some(merged.call.metadata.id@),
{
    lemma_id_from_started_line(merged);
    reveal_strlit("date");
    lemma_pass_yaml_line("date"@, date, from_started_line(merged));
}

/// Looking for the id from the `account` line on finds it.
proof fn lemma_id_from_account_line(merged: MergedCall, date: Seq<char>)
    requires
        plain_id(merged.call.metadata.id@),
    ensures
        id_from_lines(lines(from_account_line(merged, date)), 1) == Some(merged.call.metadata.id@),
{
    lemma_id_from_date_line(merged, date);
    reveal_strlit("account");
    lemma_pass_optional_line(
        "account"@,
        spec_account_name(merged.call),
        from_date_line(merged, date),
    );
}

/// Looking for the id from the `title` line on finds it.
proof fn lemma_id_from_title_line(merged: MergedCall, date: Seq<char>)
    requires
        plain_id(merged.call.metadata.id@),
    ensures
        id_from_lines(lines(from_title_line(merged, date)), 1) == Some(merged.call.metadata.id@),
{
    lemma_id_from_account_line(merged, date);
    reveal_strlit("title");
    lemma_pass_yaml_line("title"@, merged.call.metadata.title@, from_account_line(merged, date));
}

/// A rendered Call File names its Call: reading `gong_call_id` back from its
/// front matter gives the Call's id, so the next sync matches the file to its
/// Call by id and skips or heals it instead of writing a second file.  This
/// holds for every id without a character that the front matter escapes.
pub proof fn lemma_rendered_file_names_its_call(merged: MergedCall, date: Seq<char>)
    requires
        plain_id(merged.call.metadata.id@),
    ensures
        spec_frontmatter_call_id(spec_markdown(merged, date)) == Some(merged.call.metadata.id@),
{
    lemma_markdown_shape(merged, date);
    lemma_id_from_title_line(merged, date);
    let s1 = from_title_line(merged, date);
    lemma_lines_line(seq!['-', '-', '-'], s1);
    let ls = seq![seq!['-', '-', '-']] + lines(s1);
    assert(ls[0] == seq!['-', '-', '-']);
    assert(ls.drop_first() =~= lines(s1));
}

/// A text occurs in any text that has it between two others.
proof fn lemma_contains_middle(pre: Seq<char>, x: Seq<char>, post: Seq<char>)
    ensures
        contains_text(pre + x + post, x),
{
    let w = pre + x + post;
    let i = pre.len() as int;
    assert(w.subrange(i, i + x.len()) =~= x);
}

/// Regrouping a Call File around its summary text.
proof fn lemma_regroup_summary(
    f: Seq<char>,
    a1: Seq<char>,
    a2: Seq<char>,
    a3: Seq<char>,
    a4: Seq<char>,
    sm: Seq<char>,
    b1: Seq<char>,
    b2: Seq<char>,
    b3: Seq<char>,
    b4: Seq<char>,
    b5: Seq<char>,
    b6: Seq<char>,
    b7: Seq<char>,
    b8: Seq<char>,
)
    ensures
        f + (a1 + a2 + a3 + a4 + sm + b1 + b2 + b3 + b4 + b5 + b6 + b7 + b8) == (f + a1 + a2 + a3
            + a4) + sm + (b1 + b2 + b3 + b4 + b5 + b6 + b7 + b8),
{
    assert(f + (a1 + a2 + a3 + a4 + sm + b1 + b2 + b3 + b4 + b5 + b6 + b7 + b8) =~= (f + a1 + a2
        + a3 + a4) + sm + (b1 + b2 + b3 + b4 + b5 + b6 + b7 + b8));
}

/// A Call File rendered before Gong has a Spotlight brief holds the
/// placeholder, so a later sync finds it incomplete and heals it.
pub proof fn lemma_missing_brief_leaves_placeholder(merged: MergedCall, date: Seq<char>)
    requires
        !(merged.call.content matches Some(c) && c.brief matches Some(b) && trim(b@).len() > 0),
    ensures
        contains_text(spec_markdown(merged, date), PLACEHOLDER@),
{
    let call = merged.call;
    let turns = spec_turns(call.parties@, merged.transcript.transcript@);
    assert(summary_text(call) == PLACEHOLDER@);
    let f = frontmatter(call, date);
    let pre = f + "# "@ + call.metadata.title@ + "\n\n"@ + "## Summary\n\n"@;
    let post = "\n\n"@ + "### Key points\n\n"@ + bullets(key_point_texts(call))
        + "### Next steps\n\n"@ + bullets(next_step_texts(call)) + outline_toc(outline_of(call))
        + "## Transcript\n\n"@ + transcript_body(outline_of(call), turns);
    lemma_regroup_summary(
        f,
        "# "@,
        call.metadata.title@,
        "\n\n"@,
        "## Summary\n\n"@,
        summary_text(call),
        "\n\n"@,
        "### Key points\n\n"@,
        bullets(key_point_texts(call)),
        "### Next steps\n\n"@,
        bullets(next_step_texts(call)),
        outline_toc(outline_of(call)),
        "## Transcript\n\n"@,
        transcript_body(outline_of(call), turns),
    );
    assert(spec_markdown(merged, date) == pre + PLACEHOLDER@ + post);
    lemma_contains_middle(pre, PLACEHOLDER@, post);
}

} // verus!

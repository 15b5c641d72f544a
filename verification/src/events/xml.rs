//! A deliberately small extractor for the Windows Event schema.
//!
//! Not a general XML parser: `EvtRenderEventXml` emits a narrow,
//! machine-generated document, and only a few things are needed out of it.
//! Every function fails to `None` rather than guessing.

use vstd::prelude::*;
use vstd::string::StringSliceAdditionalSpecFns;

use crate::keyed::OrderedMap;
use crate::text::{
    chars_of, decimal, find_closed, occurs_at, find_closed_exec, find_exec, find_from, find_opened, find_opened_exec,
    lemma_find_closed, lemma_find_from, push_decimal, replace_all, replace_str,
};

verus! {

/// The view of an optional string.
pub open spec fn opt_str(o: Option<String>) -> Option<Seq<char>> {
    match o {
        Some(s) => Some(s@),
        None => None,
    }
}

/// Entity decoding: `&lt; &gt; &quot; &apos;` first and `&amp;` last, so that
/// an escaped entity is decoded exactly once.
pub open spec fn unescaped(v: Seq<char>) -> Seq<char> {
    replace_all(
        replace_all(
            replace_all(
                replace_all(replace_all(v, "&lt;"@, "<"@), "&gt;"@, ">"@),
                "&quot;"@,
                "\""@,
            ),
            "&apos;"@,
            "'"@,
        ),
        "&amp;"@,
        "&"@,
    )
}

/// Text of the first `<name>…</name>` element, decoded. The name must be
/// followed by `>`, `/` or whitespace, so `<Keywords>` is no `<Keyword>`.
pub open spec fn element_text_of(d: Seq<char>, name: Seq<char>) -> Option<Seq<char>> {
    match find_closed(d, "<"@ + name, 0) {
        None => None,
        Some(start) => match find_from(d, ">"@, start) {
            None => None,
            Some(gt) => match find_from(d, "</"@ + name + ">"@, gt + 1) {
                None => None,
                Some(end) => Some(unescaped(d.subrange(gt + 1, end))),
            },
        },
    }
}

/// The raw value of `key` quoted with `quote` inside `tag`: the text after the
/// first `key` + `quote` that follows whitespace, up to the next `quote`.
pub open spec fn quoted_value(tag: Seq<char>, key: Seq<char>, quote: Seq<char>) -> Option<Seq<char>> {
    match find_opened(tag, key + quote, 0) {
        None => None,
        Some(at) => match find_from(tag, quote, at + key.len() + quote.len()) {
            None => None,
            Some(e) => Some(tag.subrange(at + key.len() + quote.len(), e)),
        },
    }
}

/// A value quoted with single quotes, or failing that with double quotes.
pub open spec fn either_quoted(tag: Seq<char>, key: Seq<char>) -> Option<Seq<char>> {
    match quoted_value(tag, key, "'"@) {
        Some(v) => Some(v),
        None => quoted_value(tag, key, "\""@),
    }
}

/// The first tag `<element …>`, from `<` up to (not including) `>`; the name
/// must be followed by `>`, `/` or whitespace.
pub open spec fn first_tag(d: Seq<char>, element: Seq<char>) -> Option<Seq<char>> {
    match find_closed(d, "<"@ + element, 0) {
        None => None,
        Some(start) => match find_from(d, ">"@, start) {
            None => None,
            Some(end) => Some(d.subrange(start, end)),
        },
    }
}

/// Value of `attribute` on the first `<element …>` tag, decoded.
pub open spec fn attribute_of(d: Seq<char>, element: Seq<char>, attribute: Seq<char>) -> Option<Seq<char>> {
    match first_tag(d, element) {
        None => None,
        Some(tag) => match either_quoted(tag, attribute + "="@) {
            Some(v) => Some(unescaped(v)),
            None => None,
        },
    }
}

/// The `Name` attribute of a `<Data …>` tag, not decoded.
pub open spec fn data_name(tag: Seq<char>) -> Option<Seq<char>> {
    either_quoted(tag, "Name="@)
}

/// One `<Data>` element: its name, if it has one, and its decoded value.
pub struct DataItem {
    pub name: Option<Seq<char>>,
    pub value: Seq<char>,
}

/// The `<Data>` elements of an `<EventData>` section from position `cursor`
/// on, in document order. A self-closing tag carries an empty value; an
/// unterminated element ends the scan.
pub open spec fn data_items(sec: Seq<char>, cursor: int) -> Seq<DataItem>
    decreases sec.len() + 1 - cursor,
{
    if cursor < 0 || cursor > sec.len() {
        seq![]
    } else {
        match find_closed(sec, "<Data"@, cursor) {
            None => seq![],
            Some(tag_start) => match find_from(sec, ">"@, tag_start) {
                None => seq![],
                Some(tag_end) => {
                    proof {
                        lemma_find_closed(sec, "<Data"@, cursor);
                        lemma_find_from(sec, ">"@, tag_start);
                        lemma_find_from(sec, "</Data>"@, tag_end + 1);
                        reveal_strlit("</Data>");
                    }
                    let tag = sec.subrange(tag_start, tag_end);
                    if tag_end > tag_start && sec[tag_end - 1] == '/' {
                        seq![DataItem { name: data_name(tag), value: seq![] }]
                            + data_items(sec, tag_end + 1)
                    } else {
                        match find_from(sec, "</Data>"@, tag_end + 1) {
                            None => seq![],
                            Some(end) => seq![
                                DataItem {
                                    name: data_name(tag),
                                    value: unescaped(sec.subrange(tag_end + 1, end)),
                                },
                            ] + data_items(sec, end + 7),
                        }
                    }
                },
            },
        }
    }
}

/// Fields collected from data items: named items under their name, unnamed
/// ones under their position among the unnamed (`"0"`, `"1"`, …); a later
/// item replaces an earlier one with the same key. Also tells whether every
/// item was named, and how many were not.
pub open spec fn collect_fields(items: Seq<DataItem>) -> (Map<Seq<char>, Seq<char>>, bool, nat)
    decreases items.len(),
{
    if items.len() == 0 {
        (Map::empty(), true, 0)
    } else {
        let prev = collect_fields(items.drop_last());
        let item = items.last();
        match item.name {
            Some(n) => (prev.0.insert(n, item.value), prev.1, prev.2),
            None => (prev.0.insert(decimal(prev.2), item.value), false, prev.2 + 1),
        }
    }
}

/// The `<EventData>` section: from its opening tag to the first
/// `</EventData>` after it, or to the end of the document.
pub open spec fn event_data_section(d: Seq<char>) -> Option<Seq<char>> {
    match find_from(d, "<EventData"@, 0) {
        None => None,
        Some(start) => {
            let section = d.skip(start);
            match find_from(section, "</EventData>"@, 0) {
                Some(end) => Some(section.subrange(0, end)),
                None => Some(section),
            }
        },
    }
}

/// The fields of `<EventData>` and whether they were all named; an event
/// without the section has no fields, all (vacuously) named.
pub open spec fn event_data_of(d: Seq<char>) -> (Map<Seq<char>, Seq<char>>, bool) {
    match event_data_section(d) {
        None => (Map::empty(), true),
        Some(sec) => {
            let r = collect_fields(data_items(sec, 0));
            (r.0, r.1)
        },
    }
}

/// Decodes the five predefined XML entities, `&amp;` last so that an
/// escaped entity is not decoded twice.
pub fn unescape(value: &str) -> (r: String)
    ensures
        r@ == unescaped(value@),
{
    proof {
        reveal_strlit("&lt;");
        reveal_strlit("&gt;");
        reveal_strlit("&quot;");
        reveal_strlit("&apos;");
        reveal_strlit("&amp;");
    }
    let a = replace_str(value, "&lt;", "<");
    let b = replace_str(a.as_str(), "&gt;", ">");
    let c = replace_str(b.as_str(), "&quot;", "\"");
    let d = replace_str(c.as_str(), "&apos;", "'");
    replace_str(d.as_str(), "&amp;", "&")
}

/// The characters of `a` followed by `b`.
fn joined(a: &str, b: &str) -> (r: Vec<char>)
    ensures
        r@ == a@ + b@,
{
    let mut s = a.to_owned();
    s.append(b);
    chars_of(s.as_str())
}

/// Text content of the first `<name>…</name>` element.
pub fn element_text(document: &str, name: &str) -> (r: Option<String>)
    ensures
        opt_str(r) == element_text_of(document@, name@),
{
    let d = chars_of(document);
    let open = joined("<", name);
    let start = match find_closed_exec(&d, &open, 0) {
        Some(i) => i,
        None => return None,
    };
    let gt = chars_of(">");
    proof { reveal_strlit(">"); }
    let tag_end = match find_exec(&d, &gt, start) {
        Some(i) => i,
        None => return None,
    };
    let n = d.len();
    assert(tag_end + 1 <= n);
    let mut close_s = "</".to_owned();
    close_s.append(name);
    close_s.append(">");
    let close = chars_of(close_s.as_str());
    let end = match find_exec(&d, &close, tag_end + 1) {
        Some(i) => i,
        None => return None,
    };
    let content = document.substring_char(tag_end + 1, end);
    Some(unescape(content))
}


/// The raw value of `key` quoted with `quote` inside `tag`.
fn quoted<'a>(tag: &'a str, tag_c: &Vec<char>, key: &str, quote: &str) -> (r: Option<&'a str>)
    requires
        tag_c@ == tag@,
        quote@.len() > 0,
    ensures
        match r {
            Some(v) => quoted_value(tag@, key@, quote@) == Some(v@),
            None => quoted_value(tag@, key@, quote@) is None,
        },
{
    let tn = tag_c.len();
    let needle = joined(key, quote);
    let at = match find_opened_exec(tag_c, &needle, 0) {
        Some(i) => i,
        None => return None,
    };
    let value_start = at + needle.len();
    let q = chars_of(quote);
    let end = match find_exec(tag_c, &q, value_start) {
        Some(i) => i,
        None => return None,
    };
    Some(tag.substring_char(value_start, end))
}

/// A value quoted with single quotes, or failing that with double quotes.
fn either<'a>(tag: &'a str, tag_c: &Vec<char>, key: &str) -> (r: Option<&'a str>)
    requires
        tag_c@ == tag@,
    ensures
        match r {
            Some(v) => either_quoted(tag@, key@) == Some(v@),
            None => either_quoted(tag@, key@) is None,
        },
{
    proof {
        reveal_strlit("'");
        reveal_strlit("\"");
    }
    match quoted(tag, tag_c, key, "'") {
        Some(v) => Some(v),
        None => quoted(tag, tag_c, key, "\""),
    }
}

/// The first tag `<element …>`, without its closing `>`.
fn find_tag<'a>(document: &'a str, d: &Vec<char>, element: &str) -> (r: Option<&'a str>)
    requires
        d@ == document@,
    ensures
        match r {
            Some(t) => first_tag(document@, element@) == Some(t@),
            None => first_tag(document@, element@) is None,
        },
{
    let open = joined("<", element);
    let start = match find_closed_exec(d, &open, 0) {
        Some(i) => i,
        None => return None,
    };
    let gt = chars_of(">");
    let end = match find_exec(d, &gt, start) {
        Some(i) => i,
        None => return None,
    };
    Some(document.substring_char(start, end))
}

/// Value of `attribute` on the first `<element …>` tag; single or double
/// quotes are both accepted.
pub fn attribute(document: &str, element: &str, name: &str) -> (r: Option<String>)
    ensures
        opt_str(r) == attribute_of(document@, element@, name@),
{
    let d = chars_of(document);
    let tag = match find_tag(document, &d, element) {
        Some(t) => t,
        None => return None,
    };
    let tag_c = chars_of(tag);
    let mut key = name.to_owned();
    key.append("=");
    match either(tag, &tag_c, key.as_str()) {
        Some(v) => Some(unescape(v)),
        None => None,
    }
}

/// The `Name` attribute of a `<Data …>` tag.
fn extract_name(tag: &str) -> (r: Option<String>)
    ensures
        opt_str(r) == data_name(tag@),
{
    let tag_c = chars_of(tag);
    match either(tag, &tag_c, "Name=") {
        Some(v) => Some(v.to_owned()),
        None => None,
    }
}

/// Extracts the `<EventData>` children.
///
/// Returns the fields plus whether the elements were named. `Data/@Name` is
/// resolved from the publisher's manifest at render time; without it Windows
/// emits positional `<Data>` elements, which are returned under the keys
/// `"0"`, `"1"`, … with the flag set to false, so that callers can tell the
/// two apart.
pub fn event_data(document: &str) -> (r: (OrderedMap<String>, bool))
    ensures
        r.0@ == event_data_of(document@).0,
        r.1 == event_data_of(document@).1,
{
    let mut fields: OrderedMap<String> = OrderedMap::new();
    let d = chars_of(document);
    let open = chars_of("<EventData");
    let section_start = match find_exec(&d, &open, 0) {
        Some(i) => i,
        None => return (fields, true),
    };
    let rest = document.substring_char(section_start, d.len());
    assert(rest@ =~= document@.skip(section_start as int));
    let rest_c = chars_of(rest);
    let close = chars_of("</EventData>");
    let section = match find_exec(&rest_c, &close, 0) {
        Some(end) => rest.substring_char(0, end),
        None => rest,
    };
    let sec = chars_of(section);
    let n = sec.len();
    let data_open = chars_of("<Data");
    let gt = chars_of(">");
    let data_close = chars_of("</Data>");
    proof {
        reveal_strlit(">");
        reveal_strlit("</Data>");
    }
    let mut named = true;
    let mut positional: u64 = 0;
    let mut cursor: usize = 0;
    let ghost mut done: Seq<DataItem> = seq![];
    assert(data_items(sec@, 0) =~= done + data_items(sec@, 0));
    loop
        invariant
            sec@ == section@,
            n == sec@.len(),
            data_open@ == "<Data"@,
            gt@ == ">"@,
            gt@.len() == 1,
            data_close@ == "</Data>"@,
            data_close@.len() == 7,
            cursor <= n,
            data_items(sec@, 0) == done + data_items(sec@, cursor as int),
            collect_fields(done) == (fields@, named, positional as nat),
            positional <= done.len() <= cursor,
        ensures
            collect_fields(done) == (fields@, named, positional as nat),
            data_items(sec@, 0) =~= done,
        decreases n - cursor,
    {
        let tag_start = match find_closed_exec(&sec, &data_open, cursor) {
            Some(i) => i,
            None => break,
        };
        let tag_end = match find_exec(&sec, &gt, tag_start) {
            Some(i) => i,
            None => break,
        };
        let tag = section.substring_char(tag_start, tag_end);
        let ghost tag_v = sec@.subrange(tag_start as int, tag_end as int);
        assert(tag@ == tag_v);
        let value: String;
        let next: usize;
        if tag_end > tag_start && sec[tag_end - 1] == '/' {
            value = String::new();
            next = tag_end + 1;
        } else {
            let value_start = tag_end + 1;
            match find_exec(&sec, &data_close, value_start) {
                Some(end) => {
                    value = unescape(section.substring_char(value_start, end));
                    next = end + 7;
                },
                None => break,
            }
        }
        let ghost item = DataItem { name: data_name(tag_v), value: value@ };
        assert(data_items(sec@, cursor as int) == seq![item] + data_items(sec@, next as int));
        let ghost before = done;
        proof {
            done = done.push(item);
            assert(done.drop_last() =~= before);
            assert(data_items(sec@, 0) =~= done + data_items(sec@, next as int));
        }
        match extract_name(tag) {
            Some(name) => {
                fields.upsert(name, value);
            },
            None => {
                named = false;
                let mut key = String::new();
                push_decimal(&mut key, positional);
                fields.upsert(key, value);
                positional = positional + 1;
            },
        }
        cursor = next;
    }
    (fields, named)
}


/// ASCII `0`.
pub const ASCII_ZERO: u8 = 48;
/// ASCII `9`.
pub const ASCII_NINE: u8 = 57;
/// ASCII `:`.
pub const ASCII_COLON: u8 = 58;
/// ASCII `-`.
pub const ASCII_MINUS: u8 = 45;
/// ASCII `T`.
pub const ASCII_T: u8 = 84;

/// Whether a byte is an ASCII decimal digit.
pub open spec fn is_digit(b: u8) -> bool {
    ASCII_ZERO <= b <= ASCII_NINE
}

/// The value of a run of ASCII digits.
pub open spec fn digits_value(b: Seq<u8>) -> int
    decreases b.len(),
{
    if b.len() == 0 {
        0
    } else {
        digits_value(b.drop_last()) * 10 + (b.last() - ASCII_ZERO)
    }
}

/// A non-empty run of ASCII digits.
pub open spec fn all_digits(b: Seq<u8>) -> bool {
    b.len() > 0 && forall|i: int| 0 <= i < b.len() ==> is_digit(#[trigger] b[i])
}

/// The value of the ASCII digits `b[start..end]`, if they are all digits.
pub open spec fn field_value(b: Seq<u8>, start: int, end: int) -> Option<int> {
    if all_digits(b.subrange(start, end)) {
        Some(digits_value(b.subrange(start, end)))
    } else {
        None
    }
}

/// Whether a year of the proleptic Gregorian calendar has a 29th of February.
pub open spec fn is_leap_year(y: int) -> bool {
    y % 4 == 0 && (y % 100 != 0 || y % 400 == 0)
}

/// The number of days of a month (1 to 12) of a year.
pub open spec fn days_in_month(y: int, m: int) -> int {
    if m == 2 {
        if is_leap_year(y) { 29 } else { 28 }
    } else if m == 4 || m == 6 || m == 9 || m == 11 {
        30
    } else {
        31
    }
}

/// A calendar date: a month from 1 to 12 and a day of that month.
pub open spec fn valid_date(y: int, m: int, d: int) -> bool {
    1 <= m <= 12 && 1 <= d <= days_in_month(y, m)
}

/// Days from 1970-01-01 to the proleptic Gregorian date `year-month-day`
/// (400-year eras starting in March).
pub open spec fn days_from_civil_spec(year: int, month: int, day: int) -> int {
    let y = if month <= 2 { year - 1 } else { year };
    let era = y / 400;
    let yoe = y - era * 400;
    let doy = (153 * (if month > 2 { month - 3 } else { month + 9 }) + 2) / 5 + day - 1;
    let doe = yoe * 365 + yoe / 4 - yoe / 100 + doy;
    era * 146097 + doe - 719468
}

/// Seconds since the Unix epoch of `YYYY-MM-DDTHH:MM:SS…` given as UTF-8
/// bytes: the separators `-`, `-`, `T`, `:`, `:` at their places, unsigned
/// digits in every field, a calendar date, and a time of day below 24:00:00.
/// What follows the seconds (a fraction, the zone) is not read.
pub open spec fn epoch_of(b: Seq<u8>) -> Option<int> {
    if b.len() < 19 || b[4] != ASCII_MINUS || b[7] != ASCII_MINUS || b[10] != ASCII_T || b[13] != ASCII_COLON
        || b[16] != ASCII_COLON {
        None
    } else {
        match (
            field_value(b, 0, 4),
            field_value(b, 5, 7),
            field_value(b, 8, 10),
            field_value(b, 11, 13),
            field_value(b, 14, 16),
            field_value(b, 17, 19),
        ) {
            (Some(y), Some(mo), Some(d), Some(h), Some(mi), Some(s)) => if valid_date(y, mo, d) && h < 24 && mi < 60
                && s < 60 {
                Some(days_from_civil_spec(y, mo, d) * 86400 + h * 3600 + mi * 60 + s)
            } else {
                None
            },
            _ => None,
        }
    }
}

/// The view of an optional 64-bit integer.
pub open spec fn opt_int(o: Option<i64>) -> Option<int> {
    match o {
        Some(v) => Some(v as int),
        None => None,
    }
}

/// Value of the ASCII digits `b[start..end]`.
fn digits_at(b: &[u8], start: usize, end: usize) -> (r: Option<i64>)
    requires
        start <= end <= b@.len(),
        end - start <= 4,
    ensures
        match r {
            Some(v) => all_digits(b@.subrange(start as int, end as int))
                && v == digits_value(b@.subrange(start as int, end as int))
                && 0 <= v < 10000,
            None => !all_digits(b@.subrange(start as int, end as int)),
        },
{
    if start == end {
        return None;
    }
    let mut v: i64 = 0;
    let mut i = start;
    while i < end
        invariant
            start <= i <= end <= b@.len(),
            end - start <= 4,
            0 <= v < pow10_int((i - start) as nat),
            pow10_int((i - start) as nat) <= 10000,
            forall|k: int| start <= k < i ==> is_digit(#[trigger] b@[k]),
            v == digits_value(b@.subrange(start as int, i as int)),
        decreases end - i,
    {
        let c = b[i];
        if c < ASCII_ZERO || c > ASCII_NINE {
            assert(b@.subrange(start as int, end as int)[i - start] == c);
            return None;
        }
        assert(b@.subrange(start as int, i + 1).drop_last() =~= b@.subrange(start as int, i as int));
        assert(pow10_int((i + 1 - start) as nat) == 10 * pow10_int((i - start) as nat));
        proof { lemma_pow10_small((i + 1 - start) as nat); }
        v = v * 10 + (c - ASCII_ZERO) as i64;
        i = i + 1;
    }
    Some(v)
}

/// Ten to the power `n`.
pub open spec fn pow10_int(n: nat) -> int
    decreases n,
{
    if n == 0 { 1 } else { 10 * pow10_int((n - 1) as nat) }
}

proof fn lemma_pow10_small(n: nat)
    requires
        n <= 4,
    ensures
        pow10_int(n) <= 10000,
{
    reveal_with_fuel(pow10_int, 5);
}

/// The number of days of a month (1 to 12) of a year.
fn month_days(year: i64, month: i64) -> (r: i64)
    requires
        0 <= year < 10000,
    ensures
        r == days_in_month(year as int, month as int),
{
    if month == 2 {
        if year % 4 == 0 && (year % 100 != 0 || year % 400 == 0) { 29 } else { 28 }
    } else if month == 4 || month == 6 || month == 9 || month == 11 {
        30
    } else {
        31
    }
}

proof fn lemma_floor_div_400(y: int, era: int)
    requires
        y >= 0 ==> era == y / 400,
        y < 0 ==> era == -((399 - y) / 400),
    ensures
        era == y / 400,
        0 <= y - era * 400 < 400,
{
    if y < 0 {
        let q = (399 - y) / 400;
        assert(q * 400 <= 399 - y < q * 400 + 400) by (nonlinear_arith)
            requires
                q == (399 - y) / 400,
                399 - y > 0,
        ;
        assert(-q * 400 <= y < -q * 400 + 400);
        assert(y / 400 == -q) by (nonlinear_arith)
            requires
                -q * 400 <= y < -q * 400 + 400,
        ;
    } else {
        assert(0 <= y - era * 400 < 400) by (nonlinear_arith)
            requires
                era == y / 400,
                y >= 0,
        ;
    }
}

/// Days from the Unix epoch to a proleptic Gregorian date.
fn days_from_civil(year: i64, month: u32, day: u32) -> (r: i64)
    requires
        -25_000_000_000_000_000 <= year <= 25_000_000_000_000_000,
    ensures
        r == days_from_civil_spec(year as int, month as int, day as int),
{
    let year = if month <= 2 { year - 1 } else { year };
    // Floor division, so that eras start on multiples of 400 years.
    let era = if year >= 0 { year / 400 } else { -((399 - year) / 400) };
    proof {
        lemma_floor_div_400(year as int, era as int);
        assert(-62_500_000_000_001 <= era <= 62_500_000_000_000) by (nonlinear_arith)
            requires
                era == year / 400,
                -25_000_000_000_000_001 <= year <= 25_000_000_000_000_000,
        ;
        assert(-62_500_000_000_001 * 146_097 <= era * 146_097 <= 62_500_000_000_000 * 146_097) by (nonlinear_arith)
            requires
                -62_500_000_000_001 <= era <= 62_500_000_000_000,
        ;
    }
    let year_of_era = year - era * 400;
    let month = month as i64;
    let shifted = if month > 2 { month - 3 } else { month + 9 };
    let day_of_year = (153 * shifted + 2) / 5 + day as i64 - 1;
    let day_of_era = year_of_era * 365 + year_of_era / 4 - year_of_era / 100 + day_of_year;
    era * 146_097 + day_of_era - 719_468
}

/// Parses `2026-07-20T08:50:30.1234567Z` to seconds since the Unix epoch.
///
/// Only the shape the event renderer emits is accepted: anything else,
/// including a date that is not on the calendar, is `None` rather than a guess.
pub fn epoch_from_iso8601(value: &str) -> (r: Option<i64>)
    ensures
        opt_int(r) == epoch_of(value.spec_bytes()),
{
    let bytes = value.as_bytes();
    if bytes.len() < 19 || bytes[4] != ASCII_MINUS || bytes[7] != ASCII_MINUS || bytes[10] != ASCII_T
        || bytes[13] != ASCII_COLON || bytes[16] != ASCII_COLON {
        return None;
    }
    let year = match digits_at(bytes, 0, 4) {
        Some(v) => v,
        None => return None,
    };
    let month = match digits_at(bytes, 5, 7) {
        Some(v) => v,
        None => return None,
    };
    let day = match digits_at(bytes, 8, 10) {
        Some(v) => v,
        None => return None,
    };
    let hour = match digits_at(bytes, 11, 13) {
        Some(v) => v,
        None => return None,
    };
    let minute = match digits_at(bytes, 14, 16) {
        Some(v) => v,
        None => return None,
    };
    let second = match digits_at(bytes, 17, 19) {
        Some(v) => v,
        None => return None,
    };
    if month < 1 || month > 12 || day < 1 || day > month_days(year, month) || hour >= 24 || minute >= 60
        || second >= 60 {
        return None;
    }
    let days = days_from_civil(year, month as u32, day as u32);
    Some(days * 86_400 + hour * 3600 + minute * 60 + second)
}


/// Replacing a pattern that starts with `&` leaves text without `&` alone.
proof fn lemma_replace_without_ampersand(s: Seq<char>, from: Seq<char>, to: Seq<char>)
    requires
        from.len() > 0,
        from[0] == '&',
        !s.contains('&'),
    ensures
        replace_all(s, from, to) == s,
    decreases s.len(),
{
    if s.len() > 0 {
        assert(s[0] != '&');
        if occurs_at(s, from, 0) {
            assert(s.subrange(0, from.len() as int)[0] == s[0]);
        }
        assert forall|i: int| 0 <= i < s.drop_first().len() implies s.drop_first()[i] != '&' by {
            assert(s.drop_first()[i] == s[i + 1]);
        }
        lemma_replace_without_ampersand(s.drop_first(), from, to);
        assert(s =~= seq![s[0]] + s.drop_first());
    }
}

/// Text without `&` holds no entity and is left as it is.
pub proof fn lemma_unescape_plain_text(s: Seq<char>)
    requires
        !s.contains('&'),
    ensures
        unescaped(s) == s,
{
    reveal_strlit("&lt;");
    reveal_strlit("&gt;");
    reveal_strlit("&quot;");
    reveal_strlit("&apos;");
    reveal_strlit("&amp;");
    lemma_replace_without_ampersand(s, "&lt;"@, "<"@);
    lemma_replace_without_ampersand(s, "&gt;"@, ">"@);
    lemma_replace_without_ampersand(s, "&quot;"@, "\""@);
    lemma_replace_without_ampersand(s, "&apos;"@, "'"@);
    lemma_replace_without_ampersand(s, "&amp;"@, "&"@);
}

/// The fields report `named` exactly when every `<Data>` element had a name,
/// and the unnamed ones are counted, so positional data is never mistaken
/// for named data.
pub proof fn lemma_named_flag(items: Seq<DataItem>)
    ensures
        collect_fields(items).1 <==> forall|i: int| 0 <= i < items.len() ==> (#[trigger] items[i]).name is Some,
        collect_fields(items).2 == items.filter(|it: DataItem| it.name is None).len(),
    decreases items.len(),
{
    reveal(Seq::filter);
    if items.len() > 0 {
        let rest = items.drop_last();
        lemma_named_flag(rest);
        assert forall|i: int| 0 <= i < rest.len() implies rest[i] == items[i] by {}
        if collect_fields(items).1 {
            assert forall|i: int| 0 <= i < items.len() implies (#[trigger] items[i]).name is Some by {
                if i < rest.len() {
                    assert(rest[i] == items[i]);
                }
            }
        }
        if forall|i: int| 0 <= i < items.len() ==> (#[trigger] items[i]).name is Some {
            assert(items[items.len() - 1].name is Some);
            assert forall|i: int| 0 <= i < rest.len() implies (#[trigger] rest[i]).name is Some by {
                assert(items[i].name is Some);
            }
        }
    }
}

} // verus!

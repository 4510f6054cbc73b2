//! Typed dates (`MM/DD/YYYY`) and times (`H:MMam`, `HH:MM pm`) in a line of
//! text, found as tokens and replaced by their readable forms.
use crate::calendar::{valid_ymd, weekday_spec, Date, Time};
use crate::format::{
    format_date, format_date_spec, format_time, format_time_spec, hour12, month_name_spec,
    ordinal_spec, ordinal_suffix, two_digits, weekday_name_spec,
};
use crate::text::{
    ascii_lower_code, decimal, digit_char, digit_value, is_alnum_char, is_alpha_char,
    is_ascii_alphanumeric, is_ascii_digit, is_digit_char, push_char, push_str, signed_decimal,
};
use vstd::prelude::*;

verus! {

/// Number of consecutive ASCII digits at `start`, at most `max`.
pub open spec fn digit_run(s: Seq<char>, start: int, max: int) -> int
    decreases max,
{
    if max <= 0 || start < 0 || start >= s.len() || !is_digit_char(s[start]) {
        0
    } else {
        1 + digit_run(s, start + 1, max - 1)
    }
}

/// Value of the `n` decimal digits at `start`.
pub open spec fn digits_value(s: Seq<char>, start: int, n: int) -> int
    decreases n,
{
    if n <= 0 {
        0
    } else {
        digits_value(s, start, n - 1) * 10 + digit_value(s[start + n - 1])
    }
}

/// Powers of ten.
pub open spec fn pow10(n: nat) -> nat
    decreases n,
{
    if n == 0 {
        1
    } else {
        10 * pow10((n - 1) as nat)
    }
}

/// The number written by up to `max` digits at `start`, and the position
/// after them; `None` when no digit stands there.
pub open spec fn parse_digits_spec(s: Seq<char>, start: int, max: int) -> Option<(int, int)> {
    let n = digit_run(s, start, max);
    if n > 0 {
        Some((digits_value(s, start, n), start + n))
    } else {
        None
    }
}

/// Position `k` holds a digit.
pub open spec fn digit_at(s: Seq<char>, k: int) -> bool {
    0 <= k < s.len() && is_digit_char(s[k])
}

/// The `n` characters from `lo` exist and are digits.
pub open spec fn all_digits(s: Seq<char>, lo: int, n: int) -> bool {
    forall|k: int| lo <= k < lo + n ==> #[trigger] digit_at(s, k)
}

/// `M/D/YYYY` at `start` (month and day of one or two digits, year of four):
/// the position after it, the month, the day and the year.
pub open spec fn date_prefix_spec(s: Seq<char>, start: int) -> Option<(int, int, int, int)> {
    match parse_digits_spec(s, start, 2) {
        None => None,
        Some((month, i)) => if !(i < s.len() && s[i] == '/') {
            None
        } else {
            match parse_digits_spec(s, i + 1, 2) {
                None => None,
                Some((day, j)) => if !(j < s.len() && s[j] == '/') {
                    None
                } else if !all_digits(s, j + 1, 4) {
                    None
                } else {
                    Some((j + 5, month, day, digits_value(s, j + 1, 4)))
                },
            }
        },
    }
}

/// The first position at or after `i` that does not hold a space.
pub open spec fn skip_spaces(s: Seq<char>, i: int) -> int
    decreases s.len() - i,
{
    if 0 <= i < s.len() && s[i] == ' ' {
        skip_spaces(s, i + 1)
    } else {
        i
    }
}

/// The two characters at `k` are `first` and `m`, in either case.
pub open spec fn is_meridiem(s: Seq<char>, k: int, first: char) -> bool {
    ascii_lower_code(s[k]) == first as int && ascii_lower_code(s[k + 1]) == 'm' as int
}

/// Hour of a 24-hour clock for an hour (1 to 12) of a 12-hour clock.
pub open spec fn hour24(hour: int, pm: bool) -> int {
    if hour == 12 {
        if pm {
            12
        } else {
            0
        }
    } else if pm {
        hour + 12
    } else {
        hour
    }
}

/// `H:MM` or `HH:MM`, optional spaces, then `am` or `pm` in any case, at
/// `start`: the position after it, the hour (0 to 23) and the minute.
pub open spec fn time_prefix_spec(s: Seq<char>, start: int) -> Option<(int, int, int)> {
    match parse_digits_spec(s, start, 2) {
        None => None,
        Some((hour, i)) => if hour == 0 || hour > 12 || !(i < s.len() && s[i] == ':') {
            None
        } else if !(i + 2 < s.len()) {
            None
        } else if !is_digit_char(s[i + 1]) || !is_digit_char(s[i + 2]) {
            None
        } else {
            let minute = digit_value(s[i + 1]) * 10 + digit_value(s[i + 2]);
            let k = skip_spaces(s, i + 3);
            if minute > 59 || k + 2 > s.len() {
                None
            } else {
                let pm = is_meridiem(s, k, 'p');
                let am = is_meridiem(s, k, 'a');
                if !pm && !am {
                    None
                } else {
                    Some((k + 2, hour24(hour, pm), minute))
                }
            }
        },
    }
}

/// A token may start at `p`: it is the first position or follows a character
/// that is no ASCII letter or digit.
pub open spec fn token_start_spec(s: Seq<char>, p: int) -> bool {
    p == 0 || !is_alnum_char(s[p - 1])
}

/// A token may end at `e`: it is the end or precedes a character that is no
/// ASCII letter or digit.
pub open spec fn token_end_spec(s: Seq<char>, e: int) -> bool {
    e >= s.len() || !is_alnum_char(s[e])
}

/// A date token starting at `p`: its end and its (year, month, day).
pub open spec fn date_match(s: Seq<char>, p: int) -> Option<(int, (int, int, int))> {
    if 0 <= p < s.len() && is_digit_char(s[p]) && token_start_spec(s, p) {
        match date_prefix_spec(s, p) {
            Some((e, m, d, y)) => if token_end_spec(s, e) && valid_ymd(y, m, d) {
                Some((e, (y, m, d)))
            } else {
                None
            },
            None => None,
        }
    } else {
        None
    }
}

/// A time token starting at `p`: its end and its (hour, minute, second).
pub open spec fn time_match(s: Seq<char>, p: int) -> Option<(int, (int, int, int))> {
    if 0 <= p < s.len() && is_digit_char(s[p]) && token_start_spec(s, p) {
        match time_prefix_spec(s, p) {
            Some((e, h, mi)) => if token_end_spec(s, e) {
                Some((e, (h, mi, 0)))
            } else {
                None
            },
            None => None,
        }
    } else {
        None
    }
}

/// Date tokens found scanning from `p` left to right, a token being skipped
/// when it starts before `consumed` (inside the previous one): each is
/// (start, end, (year, month, day)).
pub open spec fn date_scan(s: Seq<char>, p: int, consumed: int) -> Seq<(int, int, (int, int, int))>
    decreases s.len() - p,
{
    if p >= s.len() {
        seq![]
    } else if p < consumed {
        date_scan(s, p + 1, consumed)
    } else {
        match date_match(s, p) {
            Some((e, d)) => seq![(p, e, d)] + date_scan(s, p + 1, e),
            None => date_scan(s, p + 1, consumed),
        }
    }
}

/// Time tokens found scanning from `p`, as for dates: each is
/// (start, end, (hour, minute, second)).
pub open spec fn time_scan(s: Seq<char>, p: int, consumed: int) -> Seq<(int, int, (int, int, int))>
    decreases s.len() - p,
{
    if p >= s.len() {
        seq![]
    } else if p < consumed {
        time_scan(s, p + 1, consumed)
    } else {
        match time_match(s, p) {
            Some((e, t)) => seq![(p, e, t)] + time_scan(s, p + 1, e),
            None => time_scan(s, p + 1, consumed),
        }
    }
}

/// A replacement: the span [start, end) of a text and what replaces it.
pub type Edit = (int, int, Seq<char>);

/// The date tokens of a line as replacements by their readable form.
pub open spec fn date_edits(s: Seq<char>) -> Seq<Edit> {
    date_scan(s, 0, 0).map_values(|t: (int, int, (int, int, int))| (t.0, t.1, format_date_spec(t.2)))
}

/// The time tokens of a line as replacements by their readable form.
pub open spec fn time_edits(s: Seq<char>) -> Seq<Edit> {
    time_scan(s, 0, 0).map_values(|t: (int, int, (int, int, int))| (t.0, t.1, format_time_spec(t.2)))
}

/// The first replacement that starts at `i`.
pub open spec fn find_edit(es: Seq<Edit>, i: int) -> Option<Edit>
    decreases es.len(),
{
    if es.len() == 0 {
        None
    } else if es[0].0 == i {
        Some(es[0])
    } else {
        find_edit(es.drop_first(), i)
    }
}

/// The replacement that starts at `i`, a date one first.
pub open spec fn edit_at(ds: Seq<Edit>, ts: Seq<Edit>, i: int) -> Option<Edit> {
    match find_edit(ds, i) {
        Some(e) => Some(e),
        None => find_edit(ts, i),
    }
}

/// The text from position `i` on, each replaced span written as its
/// replacement.
pub open spec fn rewrite(s: Seq<char>, ds: Seq<Edit>, ts: Seq<Edit>, i: int) -> Seq<char>
    decreases s.len() - i,
{
    if i >= s.len() {
        seq![]
    } else {
        match edit_at(ds, ts, i) {
            Some(e) => if i < e.1 <= s.len() {
                e.2 + rewrite(s, ds, ts, e.1)
            } else {
                seq![s[i]] + rewrite(s, ds, ts, i + 1)
            },
            None => seq![s[i]] + rewrite(s, ds, ts, i + 1),
        }
    }
}

/// A line with every typed date and time replaced by its readable form.
pub open spec fn normalize_line_spec(s: Seq<char>) -> Seq<char> {
    rewrite(s, date_edits(s), time_edits(s), 0)
}

/// Replacements lie inside a text of length `len`, in order, without
/// overlapping.
pub open spec fn edits_ordered(es: Seq<Edit>, len: int) -> bool {
    &&& forall|k: int| 0 <= k < es.len() ==> 0 <= (#[trigger] es[k]).0 < es[k].1 <= len
    &&& forall|k: int, l: int| 0 <= k < l < es.len() ==> (#[trigger] es[k]).1 <= (#[trigger] es[l]).0
}

/// No replacement of one list overlaps one of the other.
pub open spec fn edits_disjoint(ds: Seq<Edit>, ts: Seq<Edit>) -> bool {
    forall|k: int, l: int|
        0 <= k < ds.len() && 0 <= l < ts.len() ==> (#[trigger] ds[k]).1 <= (#[trigger] ts[l]).0
            || ts[l].1 <= ds[k].0
}

/// A date found in a line: its span, the date, and its readable form.
pub struct DateToken {
    pub start: usize,
    pub end: usize,
    pub date: Date,
    pub replacement: String,
}

/// A time found in a line: its span, the time, and its readable form.
pub struct TimeToken {
    pub start: usize,
    pub end: usize,
    pub time: Time,
    pub replacement: String,
}

impl DateToken {
    /// The token as a replacement.
    pub open spec fn edit(self) -> Edit {
        (self.start as int, self.end as int, self.replacement@)
    }
}

impl TimeToken {
    /// The token as a replacement.
    pub open spec fn edit(self) -> Edit {
        (self.start as int, self.end as int, self.replacement@)
    }
}

/// Date tokens as replacements.
pub open spec fn date_token_edits(v: Seq<DateToken>) -> Seq<Edit> {
    v.map_values(|t: DateToken| t.edit())
}

/// Time tokens as replacements.
pub open spec fn time_token_edits(v: Seq<TimeToken>) -> Seq<Edit> {
    v.map_values(|t: TimeToken| t.edit())
}

/// Date tokens as found by a scan.
pub open spec fn date_token_raw(v: Seq<DateToken>) -> Seq<(int, int, (int, int, int))> {
    v.map_values(|t: DateToken| (t.start as int, t.end as int, t.date@))
}

/// Time tokens as found by a scan.
pub open spec fn time_token_raw(v: Seq<TimeToken>) -> Seq<(int, int, (int, int, int))> {
    v.map_values(|t: TimeToken| (t.start as int, t.end as int, t.time@))
}

proof fn lemma_pow10_le(n: nat)
    requires
        n <= 9,
    ensures
        pow10(n) <= 1000000000,
{
    reveal_with_fuel(pow10, 10);
}

/// Up to `max_digits` decimal digits at `start`: their value and the position
/// after them; `None` when no digit stands at `start`.
pub fn parse_digits(s: &[char], start: usize, max_digits: usize) -> (r: Option<(u32, usize)>)
    requires
        max_digits <= 9,
    ensures
        r matches Some((v, e)) ==> parse_digits_spec(s@, start as int, max_digits as int) == Some(
            (v as int, e as int),
        ),
        r is None <==> parse_digits_spec(s@, start as int, max_digits as int) is None,
{
    let mut value: u32 = 0;
    let mut index: usize = start;
    let mut count: usize = 0;
    while count < max_digits && index < s.len() && is_ascii_digit(s[index])
        invariant
            count <= max_digits <= 9,
            index == start + count,
            value as int == digits_value(s@, start as int, count as int),
            value < pow10(count as nat),
            digit_run(s@, start as int, max_digits as int) == count + digit_run(
                s@,
                index as int,
                (max_digits - count) as int,
            ),
        decreases max_digits - count,
    {
        let d = (s[index] as u32) - ('0' as u32);
        proof {
            lemma_pow10_le((count + 1) as nat);
            assert(value * 10 + d < pow10((count + 1) as nat)) by (nonlinear_arith)
                requires
                    value < pow10(count as nat),
                    d < 10,
                    pow10((count + 1) as nat) == 10 * pow10(count as nat),
            ;
        }
        value = value * 10 + d;
        index = index + 1;
        count = count + 1;
    }
    if count > 0 {
        Some((value, index))
    } else {
        None
    }
}

/// A digit stands at every position of a run of digits.
pub(crate) proof fn lemma_all_digits_at(s: Seq<char>, lo: int, n: int, k: int)
    requires
        all_digits(s, lo, n),
        lo <= k < lo + n,
    ensures
        digit_at(s, k),
{
}

proof fn lemma_all_digits_extend(s: Seq<char>, lo: int, n: int)
    requires
        all_digits(s, lo, n),
        0 <= lo + n < s.len(),
        is_digit_char(s[lo + n]),
    ensures
        all_digits(s, lo, n + 1),
{
    assert forall|k: int| lo <= k < lo + (n + 1) implies #[trigger] digit_at(s, k) by {
        if k < lo + n {
            lemma_all_digits_at(s, lo, n, k);
        } else {
            assert(k == lo + n);
        }
    }
}

/// A date `M/D/YYYY` at `start`: the position after it, the month, the day and
/// the year.
#[verifier::loop_isolation(false)]
pub fn parse_date_prefix(s: &[char], start: usize) -> (r: Option<(usize, u32, u32, u32)>)
    ensures
        r matches Some((e, m, d, y)) ==> date_prefix_spec(s@, start as int) == Some(
            (e as int, m as int, d as int, y as int),
        ) && start < e <= s.len() && y < 10000,
        r is None <==> date_prefix_spec(s@, start as int) is None,
{
    let (month, mut index) = match parse_digits(s, start, 2) {
        Some(v) => v,
        None => return None,
    };
    if !(index < s.len() && s[index] == '/') {
        return None;
    }
    index = index + 1;
    let (day, next) = match parse_digits(s, index, 2) {
        Some(v) => v,
        None => return None,
    };
    index = next;
    if !(index < s.len() && s[index] == '/') {
        return None;
    }
    index = index + 1;
    let ghost lo = index as int;
    let mut year: u32 = 0;
    let mut n: usize = 0;
    while n < 4
        invariant
            n <= 4,
            index == lo + n,
            lo <= index <= s.len(),
            all_digits(s@, lo, n as int),
            year as int == digits_value(s@, lo, n as int),
            year < pow10(n as nat),
        decreases 4 - n,
    {
        if !(index < s.len() && is_ascii_digit(s[index])) {
            let ghost k = index as int;
            assert(lo <= k < lo + 4);
            assert(!(0 <= k < s@.len() && is_digit_char(s@[k])));
            assert(!all_digits(s@, lo, 4)) by {
                if all_digits(s@, lo, 4) {
                    lemma_all_digits_at(s@, lo, 4, k);
                }
            }
            return None;
        }
        let d = (s[index] as u32) - ('0' as u32);
        proof {
            lemma_pow10_le((n + 1) as nat);
            assert(year * 10 + d < pow10((n + 1) as nat)) by (nonlinear_arith)
                requires
                    year < pow10(n as nat),
                    d < 10,
                    pow10((n + 1) as nat) == 10 * pow10(n as nat),
            ;
        }
        proof {
            lemma_all_digits_extend(s@, lo, n as int);
        }
        year = year * 10 + d;
        index = index + 1;
        n = n + 1;
    }
    proof {
        reveal_with_fuel(pow10, 5);
    }
    Some((index, month, day, year))
}

/// The first position at or after `i` that does not hold a space.
fn skip_spaces_exec(s: &[char], i: usize) -> (r: usize)
    requires
        i <= s.len(),
    ensures
        r as int == skip_spaces(s@, i as int),
        i <= r <= s.len(),
{
    let mut k = i;
    while k < s.len() && s[k] == ' '
        invariant
            i <= k <= s.len(),
            skip_spaces(s@, i as int) == skip_spaces(s@, k as int),
        decreases s.len() - k,
    {
        k = k + 1;
    }
    k
}

/// A time `H:MMam` (optionally spaced, any case) at `start`: the position after
/// it and the time of day on a 24-hour clock.
pub fn parse_time_prefix(s: &[char], start: usize) -> (r: Option<(usize, Time)>)
    ensures
        r matches Some((e, t)) ==> time_prefix_spec(s@, start as int) == Some(
            (e as int, t@.0, t@.1),
        ) && t@.2 == 0 && start < e <= s.len(),
        r is None <==> time_prefix_spec(s@, start as int) is None,
{
    let (hour, mut index) = match parse_digits(s, start, 2) {
        Some(v) => v,
        None => return None,
    };
    if hour == 0 || hour > 12 || !(index < s.len() && s[index] == ':') {
        return None;
    }
    index = index + 1;
    if !(index < s.len() && s.len() - index > 1) {
        return None;
    }
    let minute_tens = s[index];
    let minute_ones = s[index + 1];
    if !is_ascii_digit(minute_tens) || !is_ascii_digit(minute_ones) {
        return None;
    }
    let minute = ((minute_tens as u32) - ('0' as u32)) * 10 + ((minute_ones as u32) - ('0' as u32));
    if minute > 59 {
        return None;
    }
    index = index + 2;
    index = skip_spaces_exec(s, index);
    if !(s.len() - index >= 2) {
        return None;
    }
    let c0 = s[index];
    let c1 = s[index + 1];
    let m_ok = c1 == 'm' || c1 == 'M';
    let pm = (c0 == 'p' || c0 == 'P') && m_ok;
    let am = (c0 == 'a' || c0 == 'A') && m_ok;
    if !pm && !am {
        return None;
    }
    index = index + 2;
    let hour = if hour == 12 && !pm {
        0
    } else if hour == 12 && pm {
        12
    } else if pm {
        hour + 12
    } else {
        hour
    };
    match Time::from_hms(hour, minute, 0) {
        Some(t) => Some((index, t)),
        None => None,
    }
}

/// Whether a token may start at `start`: no ASCII letter or digit stands just
/// before it.
pub fn is_token_start(text: &[char], start: usize) -> (r: bool)
    requires
        start <= text.len(),
    ensures
        r == token_start_spec(text@, start as int),
{
    start == 0 || !is_ascii_alphanumeric(text[start - 1])
}

/// Whether a token may end at `end`: no ASCII letter or digit stands just
/// after it.
pub fn is_token_end(text: &[char], end: usize) -> (r: bool)
    requires
        end <= text.len(),
    ensures
        r == token_end_spec(text@, end as int),
{
    end >= text.len() || !is_ascii_alphanumeric(text[end])
}

/// The dates typed in a line, found left to right, each with its readable
/// form; a date is not looked for inside one already found.
pub fn find_date_tokens(text: &[char]) -> (tokens: Vec<DateToken>)
    ensures
        date_token_raw(tokens@) == date_scan(text@, 0, 0),
        forall|k: int|
            0 <= k < tokens.len() ==> (#[trigger] tokens@[k]).replacement@ == format_date_spec(
                tokens@[k].date@,
            ),
{
    let mut tokens: Vec<DateToken> = Vec::new();
    let mut consumed: usize = 0;
    let mut start: usize = 0;
    while start < text.len()
        invariant
            start <= text.len(),
            date_token_raw(tokens@) + date_scan(text@, start as int, consumed as int) == date_scan(
                text@,
                0,
                0,
            ),
            forall|k: int|
                0 <= k < tokens.len() ==> (#[trigger] tokens@[k]).replacement@ == format_date_spec(
                    tokens@[k].date@,
                ),
        decreases text.len() - start,
    {
        let ghost prev = tokens@;
        let ghost rest = date_scan(text@, start as int, consumed as int);
        let mut found: Option<(usize, Date)> = None;
        if start >= consumed && is_ascii_digit(text[start]) && is_token_start(text, start) {
            if let Some((end, month, day, year)) = parse_date_prefix(text, start) {
                if is_token_end(text, end) {
                    if let Some(date) = Date::from_ymd(year as i32, month, day) {
                        found = Some((end, date));
                    }
                }
            }
        }
        match found {
            Some((end, date)) => {
                assert(date_match(text@, start as int) == Some((end as int, date@)));
                let replacement = format_date(&date);
                let token = DateToken { start, end, date, replacement };
                tokens.push(token);
                consumed = end;
                assert(date_token_raw(tokens@) =~= date_token_raw(prev).push(
                    (start as int, end as int, date@),
                ));
                assert(rest =~= seq![(start as int, end as int, date@)] + date_scan(
                    text@,
                    start + 1,
                    end as int,
                ));
            },
            None => {
                assert(rest == date_scan(text@, start + 1, consumed as int));
            },
        }
        start = start + 1;
    }
    assert(date_scan(text@, start as int, consumed as int) =~= seq![]);
    assert(date_token_raw(tokens@) + seq![] =~= date_token_raw(tokens@));
    tokens
}

/// The times typed in a line, found left to right, each with its readable
/// form; a time is not looked for inside one already found.
pub fn find_time_tokens(text: &[char]) -> (tokens: Vec<TimeToken>)
    ensures
        time_token_raw(tokens@) == time_scan(text@, 0, 0),
        forall|k: int|
            0 <= k < tokens.len() ==> (#[trigger] tokens@[k]).replacement@ == format_time_spec(
                tokens@[k].time@,
            ),
{
    let mut tokens: Vec<TimeToken> = Vec::new();
    let mut consumed: usize = 0;
    let mut start: usize = 0;
    while start < text.len()
        invariant
            start <= text.len(),
            time_token_raw(tokens@) + time_scan(text@, start as int, consumed as int) == time_scan(
                text@,
                0,
                0,
            ),
            forall|k: int|
                0 <= k < tokens.len() ==> (#[trigger] tokens@[k]).replacement@ == format_time_spec(
                    tokens@[k].time@,
                ),
        decreases text.len() - start,
    {
        let ghost prev = tokens@;
        let ghost rest = time_scan(text@, start as int, consumed as int);
        let mut found: Option<(usize, Time)> = None;
        if start >= consumed && is_ascii_digit(text[start]) && is_token_start(text, start) {
            if let Some((end, time)) = parse_time_prefix(text, start) {
                if is_token_end(text, end) {
                    found = Some((end, time));
                }
            }
        }
        match found {
            Some((end, time)) => {
                assert(time_match(text@, start as int) == Some((end as int, time@)));
                let replacement = format_time(&time);
                let token = TimeToken { start, end, time, replacement };
                tokens.push(token);
                consumed = end;
                assert(time_token_raw(tokens@) =~= time_token_raw(prev).push(
                    (start as int, end as int, time@),
                ));
                assert(rest =~= seq![(start as int, end as int, time@)] + time_scan(
                    text@,
                    start + 1,
                    end as int,
                ));
            },
            None => {
                assert(rest == time_scan(text@, start + 1, consumed as int));
            },
        }
        start = start + 1;
    }
    assert(time_scan(text@, start as int, consumed as int) =~= seq![]);
    assert(time_token_raw(tokens@) + seq![] =~= time_token_raw(tokens@));
    tokens
}

/// Position `k` holds a space.
pub open spec fn space_at(s: Seq<char>, k: int) -> bool {
    0 <= k < s.len() && s[k] == ' '
}

proof fn lemma_digit_run(s: Seq<char>, st: int, max: int)
    requires
        st >= 0,
        max >= 0,
    ensures
        0 <= digit_run(s, st, max) <= max,
        forall|x: int| st <= x < st + digit_run(s, st, max) ==> #[trigger] digit_at(s, x),
        digit_run(s, st, max) < max ==> !digit_at(s, st + digit_run(s, st, max)),
    decreases max,
{
    if max > 0 && st < s.len() && is_digit_char(s[st]) {
        lemma_digit_run(s, st + 1, max - 1);
        assert forall|x: int| st <= x < st + digit_run(s, st, max) implies #[trigger] digit_at(
            s,
            x,
        ) by {
            if x > st {
                assert(digit_at(s, x));
            }
        }
    }
}

proof fn lemma_digit_run_two(s: Seq<char>, st: int)
    requires
        st >= 0,
        digit_at(s, st),
        digit_at(s, st + 1),
    ensures
        digit_run(s, st, 2) == 2,
{
    lemma_digit_run(s, st, 2);
}

proof fn lemma_skip_spaces(s: Seq<char>, x: int)
    requires
        x >= 0,
    ensures
        x <= skip_spaces(s, x),
        forall|y: int| x <= y < skip_spaces(s, x) ==> #[trigger] space_at(s, y),
        skip_spaces(s, x) < s.len() ==> s[skip_spaces(s, x)] != ' ',
    decreases s.len() - x,
{
    if 0 <= x < s.len() && s[x] == ' ' {
        lemma_skip_spaces(s, x + 1);
        assert forall|y: int| x <= y < skip_spaces(s, x) implies #[trigger] space_at(s, y) by {
            if y > x {
                assert(space_at(s, y));
            }
        }
    }
}

/// A date token starts before it ends and ends within the text.
pub proof fn lemma_date_match_bounds(s: Seq<char>, p: int)
    ensures
        date_match(s, p) matches Some((e, _)) ==> 0 <= p < e <= s.len(),
{
    if let Some((e, _)) = date_match(s, p) {
        let (month, i) = parse_digits_spec(s, p, 2).unwrap();
        let (day, j) = parse_digits_spec(s, i + 1, 2).unwrap();
        lemma_all_digits_at(s, j + 1, 4, j + 4);
    }
}

/// A time token starts before it ends and ends within the text.
pub proof fn lemma_time_match_bounds(s: Seq<char>, p: int)
    ensures
        time_match(s, p) matches Some((e, _)) ==> 0 <= p < e <= s.len(),
{
    if let Some((e, _)) = time_match(s, p) {
        let (hour, i) = parse_digits_spec(s, p, 2).unwrap();
        lemma_skip_spaces(s, i + 3);
    }
}

/// A typed date and a typed time never overlap in a line: the one ends
/// before the other starts.
pub proof fn lemma_date_time_disjoint(s: Seq<char>, p: int, q: int)
    requires
        date_match(s, p) is Some,
        time_match(s, q) is Some,
    ensures
        date_match(s, p).unwrap().0 <= q || time_match(s, q).unwrap().0 <= p,
{
    let e = date_match(s, p).unwrap().0;
    let f = time_match(s, q).unwrap().0;
    lemma_digit_run(s, p, 2);
    let i = p + digit_run(s, p, 2);
    lemma_digit_run(s, i + 1, 2);
    let j = i + 1 + digit_run(s, i + 1, 2);
    lemma_digit_run(s, q, 2);
    let a = q + digit_run(s, q, 2);
    lemma_skip_spaces(s, a + 3);
    let k = skip_spaces(s, a + 3);
    assert(s[i] == '/' && s[j] == '/' && all_digits(s, j + 1, 4) && e == j + 5);
    assert(s[a] == ':' && is_digit_char(s[a + 1]) && is_digit_char(s[a + 2]) && f == k + 2);
    if q < e && p < f {
        if p == q {
            assert(false);
        } else if p < q {
            if q < i {
                assert(digit_at(s, q - 1));
            } else if q == i {
            } else if q == i + 1 {
                assert(a == j);
            } else if q < j {
                assert(digit_at(s, q - 1));
            } else if q == j {
            } else if q == j + 1 {
                lemma_all_digits_at(s, j + 1, 4, j + 1);
                lemma_all_digits_at(s, j + 1, 4, j + 2);
                lemma_all_digits_at(s, j + 1, 4, j + 3);
                lemma_digit_run_two(s, j + 1);
                assert(digit_at(s, a));
            } else {
                lemma_all_digits_at(s, j + 1, 4, q - 1);
            }
        } else {
            if p < a {
                assert(digit_at(s, p - 1));
            } else if p == a {
            } else if p == a + 1 {
                lemma_digit_run_two(s, a + 1);
                assert(i == a + 3);
                if k > a + 3 {
                    assert(space_at(s, a + 3));
                }
            } else if p == a + 2 {
            } else if p < k {
                assert(space_at(s, p));
            } else {
            }
        }
    }
}

/// Tokens of a scan start at or after `lo`, lie in the text and follow
/// each other without overlapping.
pub open spec fn scan_ordered(sc: Seq<(int, int, (int, int, int))>, lo: int, len: int) -> bool {
    &&& forall|k: int|
        0 <= k < sc.len() ==> lo <= (#[trigger] sc[k]).0 && 0 <= sc[k].0 < sc[k].1 <= len
    &&& forall|k: int, l: int| 0 <= k < l < sc.len() ==> (#[trigger] sc[k]).1 <= (#[trigger] sc[l]).0
}

/// Every token of a date scan is a date token at its start.
pub open spec fn date_scan_matches(s: Seq<char>, sc: Seq<(int, int, (int, int, int))>) -> bool {
    forall|k: int| 0 <= k < sc.len() ==> date_match(s, (#[trigger] sc[k]).0) == Some((sc[k].1, sc[k].2))
}

/// Every token of a time scan is a time token at its start.
pub open spec fn time_scan_matches(s: Seq<char>, sc: Seq<(int, int, (int, int, int))>) -> bool {
    forall|k: int| 0 <= k < sc.len() ==> time_match(s, (#[trigger] sc[k]).0) == Some((sc[k].1, sc[k].2))
}

proof fn lemma_date_scan(s: Seq<char>, p: int, consumed: int)
    requires
        p >= 0,
    ensures
        scan_ordered(date_scan(s, p, consumed), if p < consumed { consumed } else { p }, s.len() as int),
        date_scan_matches(s, date_scan(s, p, consumed)),
    decreases s.len() - p,
{
    let sc = date_scan(s, p, consumed);
    if p >= s.len() {
    } else if p < consumed {
        lemma_date_scan(s, p + 1, consumed);
    } else {
        match date_match(s, p) {
            Some((e, d)) => {
                lemma_date_match_bounds(s, p);
                lemma_date_scan(s, p + 1, e);
                let rest = date_scan(s, p + 1, e);
                assert(sc == seq![(p, e, d)] + rest);
                assert forall|k: int| 0 <= k < sc.len() implies p <= (#[trigger] sc[k]).0 && 0 <= sc[k].0
                    < sc[k].1 <= s.len() by {
                    if k > 0 {
                        assert(sc[k] == rest[k - 1]);
                    }
                }
                assert forall|k: int, l: int| 0 <= k < l < sc.len() implies (#[trigger] sc[k]).1
                    <= (#[trigger] sc[l]).0 by {
                    assert(sc[l] == rest[l - 1]);
                    if k > 0 {
                        assert(sc[k] == rest[k - 1]);
                    }
                }
                assert forall|k: int| 0 <= k < sc.len() implies date_match(s, (#[trigger] sc[k]).0)
                    == Some((sc[k].1, sc[k].2)) by {
                    if k > 0 {
                        assert(sc[k] == rest[k - 1]);
                    }
                }
            },
            None => {
                lemma_date_scan(s, p + 1, consumed);
            },
        }
    }
}

proof fn lemma_time_scan(s: Seq<char>, p: int, consumed: int)
    requires
        p >= 0,
    ensures
        scan_ordered(time_scan(s, p, consumed), if p < consumed { consumed } else { p }, s.len() as int),
        time_scan_matches(s, time_scan(s, p, consumed)),
    decreases s.len() - p,
{
    let sc = time_scan(s, p, consumed);
    if p >= s.len() {
    } else if p < consumed {
        lemma_time_scan(s, p + 1, consumed);
    } else {
        match time_match(s, p) {
            Some((e, t)) => {
                lemma_time_match_bounds(s, p);
                lemma_time_scan(s, p + 1, e);
                let rest = time_scan(s, p + 1, e);
                assert(sc == seq![(p, e, t)] + rest);
                assert forall|k: int| 0 <= k < sc.len() implies p <= (#[trigger] sc[k]).0 && 0 <= sc[k].0
                    < sc[k].1 <= s.len() by {
                    if k > 0 {
                        assert(sc[k] == rest[k - 1]);
                    }
                }
                assert forall|k: int, l: int| 0 <= k < l < sc.len() implies (#[trigger] sc[k]).1
                    <= (#[trigger] sc[l]).0 by {
                    assert(sc[l] == rest[l - 1]);
                    if k > 0 {
                        assert(sc[k] == rest[k - 1]);
                    }
                }
                assert forall|k: int| 0 <= k < sc.len() implies time_match(s, (#[trigger] sc[k]).0)
                    == Some((sc[k].1, sc[k].2)) by {
                    if k > 0 {
                        assert(sc[k] == rest[k - 1]);
                    }
                }
            },
            None => {
                lemma_time_scan(s, p + 1, consumed);
            },
        }
    }
}

/// The date replacements of a line lie in it, in order, without overlapping;
/// so do the time replacements; and no date replacement overlaps a time one.
pub proof fn lemma_line_edits_wf(s: Seq<char>)
    ensures
        edits_ordered(date_edits(s), s.len() as int),
        edits_ordered(time_edits(s), s.len() as int),
        edits_disjoint(date_edits(s), time_edits(s)),
{
    lemma_date_scan(s, 0, 0);
    lemma_time_scan(s, 0, 0);
    let dsc = date_scan(s, 0, 0);
    let tsc = time_scan(s, 0, 0);
    let ds = date_edits(s);
    let ts = time_edits(s);
    assert forall|k: int| 0 <= k < ds.len() implies 0 <= (#[trigger] ds[k]).0 < ds[k].1 <= s.len() by {
        assert(dsc[k].0 == ds[k].0);
    }
    assert forall|k: int, l: int| 0 <= k < l < ds.len() implies (#[trigger] ds[k]).1 <= (
    #[trigger] ds[l]).0 by {
        assert(dsc[k].1 <= dsc[l].0);
    }
    assert forall|k: int| 0 <= k < ts.len() implies 0 <= (#[trigger] ts[k]).0 < ts[k].1 <= s.len() by {
        assert(tsc[k].0 == ts[k].0);
    }
    assert forall|k: int, l: int| 0 <= k < l < ts.len() implies (#[trigger] ts[k]).1 <= (
    #[trigger] ts[l]).0 by {
        assert(tsc[k].1 <= tsc[l].0);
    }
    assert forall|k: int, l: int| 0 <= k < ds.len() && 0 <= l < ts.len() implies (
    #[trigger] ds[k]).1 <= (#[trigger] ts[l]).0 || ts[l].1 <= ds[k].0 by {
        assert(date_match(s, dsc[k].0) == Some((dsc[k].1, dsc[k].2)));
        assert(time_match(s, tsc[l].0) == Some((tsc[l].1, tsc[l].2)));
        lemma_date_time_disjoint(s, dsc[k].0, tsc[l].0);
    }
}

proof fn lemma_find_edit(es: Seq<Edit>, i: int, k: int)
    requires
        0 <= k < es.len(),
        es[k].0 == i,
        forall|j: int| 0 <= j < k ==> (#[trigger] es[j]).0 != i,
    ensures
        find_edit(es, i) == Some(es[k]),
    decreases k,
{
    if k > 0 {
        let rest = es.drop_first();
        assert forall|j: int| 0 <= j < k - 1 implies (#[trigger] rest[j]).0 != i by {
            assert(rest[j] == es[j + 1]);
        }
        lemma_find_edit(rest, i, k - 1);
    }
}

proof fn lemma_find_edit_none(es: Seq<Edit>, i: int)
    requires
        forall|j: int| 0 <= j < es.len() ==> (#[trigger] es[j]).0 != i,
    ensures
        find_edit(es, i) is None,
    decreases es.len(),
{
    if es.len() > 0 {
        let rest = es.drop_first();
        assert forall|j: int| 0 <= j < rest.len() implies (#[trigger] rest[j]).0 != i by {
            assert(rest[j] == es[j + 1]);
        }
        lemma_find_edit_none(rest, i);
    }
}

/// Position `i` of an ordered replacement list whose first `next` entries end
/// at or before `i` and whose others start at or after it: the entry that
/// starts at `i` is entry `next`, if any.
proof fn lemma_find_edit_at(es: Seq<Edit>, len: int, i: int, next: int)
    requires
        edits_ordered(es, len),
        0 <= next <= es.len(),
        forall|k: int| 0 <= k < next ==> (#[trigger] es[k]).1 <= i,
        forall|k: int| next <= k < es.len() ==> i <= (#[trigger] es[k]).0,
    ensures
        next < es.len() && es[next].0 == i ==> find_edit(es, i) == Some(es[next]),
        !(next < es.len() && es[next].0 == i) ==> find_edit(es, i) is None,
{
    if next < es.len() && es[next].0 == i {
        assert forall|j: int| 0 <= j < next implies (#[trigger] es[j]).0 != i by {
            assert(es[j].0 < es[j].1);
        }
        lemma_find_edit(es, i, next);
    } else {
        assert forall|j: int| 0 <= j < es.len() implies (#[trigger] es[j]).0 != i by {
            if j < next {
                assert(es[j].0 < es[j].1);
            } else if j > next {
                assert(es[next].1 <= es[j].0);
                assert(es[next].0 < es[next].1);
            }
        }
        lemma_find_edit_none(es, i);
    }
}

/// The line with each date token and each time token replaced by its
/// readable form; the tokens lie in the line, in order, and date tokens do
/// not overlap time tokens.
pub fn normalize_line_tokens(line: &[char], date_tokens: &[DateToken], time_tokens: &[TimeToken]) -> (out: String)
    requires
        edits_ordered(date_token_edits(date_tokens@), line@.len() as int),
        edits_ordered(time_token_edits(time_tokens@), line@.len() as int),
        edits_disjoint(date_token_edits(date_tokens@), time_token_edits(time_tokens@)),
    ensures
        out@ == rewrite(line@, date_token_edits(date_tokens@), time_token_edits(time_tokens@), 0),
{
    let ghost ds = date_token_edits(date_tokens@);
    let ghost ts = time_token_edits(time_tokens@);
    let ghost len = line@.len() as int;
    let mut out = String::new();
    let mut i: usize = 0;
    let mut di: usize = 0;
    let mut ti: usize = 0;
    assert(out@ + rewrite(line@, ds, ts, 0) =~= rewrite(line@, ds, ts, 0));
    while i < line.len()
        invariant
            ds == date_token_edits(date_tokens@),
            ts == time_token_edits(time_tokens@),
            len == line@.len(),
            edits_ordered(ds, len),
            edits_ordered(ts, len),
            edits_disjoint(ds, ts),
            i <= line.len(),
            di <= date_tokens.len(),
            ti <= time_tokens.len(),
            out@ + rewrite(line@, ds, ts, i as int) == rewrite(line@, ds, ts, 0),
            forall|k: int| 0 <= k < di ==> (#[trigger] ds[k]).1 <= i,
            forall|k: int| di <= k < ds.len() ==> i <= (#[trigger] ds[k]).0,
            forall|k: int| 0 <= k < ti ==> (#[trigger] ts[k]).1 <= i,
            forall|k: int| ti <= k < ts.len() ==> i <= (#[trigger] ts[k]).0,
        decreases line.len() - i,
    {
        proof {
            lemma_find_edit_at(ds, len, i as int, di as int);
            lemma_find_edit_at(ts, len, i as int, ti as int);
        }
        let ghost before = out@;
        if di < date_tokens.len() && date_tokens[di].start == i {
            let ghost e = ds[di as int];
            assert(e == date_tokens@[di as int].edit());
            assert(rewrite(line@, ds, ts, i as int) == e.2 + rewrite(line@, ds, ts, e.1));
            push_str(&mut out, date_tokens[di].replacement.as_str());
            let next = date_tokens[di].end;
            proof {
                assert forall|k: int| di + 1 <= k < ds.len() implies next <= (#[trigger] ds[k]).0 by {
                    assert(ds[di as int].1 <= ds[k].0);
                }
                assert forall|k: int| ti <= k < ts.len() implies next <= (#[trigger] ts[k]).0 by {
                    assert(ds[di as int].1 <= ts[k].0 || ts[k].1 <= ds[di as int].0);
                    assert(ts[k].0 < ts[k].1);
                }
                assert(out@ + rewrite(line@, ds, ts, next as int) =~= before + rewrite(
                    line@,
                    ds,
                    ts,
                    i as int,
                ));
            }
            i = next;
            di = di + 1;
        } else if ti < time_tokens.len() && time_tokens[ti].start == i {
            let ghost e = ts[ti as int];
            assert(e == time_tokens@[ti as int].edit());
            assert(rewrite(line@, ds, ts, i as int) == e.2 + rewrite(line@, ds, ts, e.1));
            push_str(&mut out, time_tokens[ti].replacement.as_str());
            let next = time_tokens[ti].end;
            proof {
                assert forall|k: int| ti + 1 <= k < ts.len() implies next <= (#[trigger] ts[k]).0 by {
                    assert(ts[ti as int].1 <= ts[k].0);
                }
                assert forall|k: int| di <= k < ds.len() implies next <= (#[trigger] ds[k]).0 by {
                    assert(ds[k].1 <= ts[ti as int].0 || ts[ti as int].1 <= ds[k].0);
                    assert(ds[k].0 < ds[k].1);
                }
                assert(out@ + rewrite(line@, ds, ts, next as int) =~= before + rewrite(
                    line@,
                    ds,
                    ts,
                    i as int,
                ));
            }
            i = next;
            ti = ti + 1;
        } else {
            assert(rewrite(line@, ds, ts, i as int) == seq![line@[i as int]] + rewrite(
                line@,
                ds,
                ts,
                i + 1,
            ));
            push_char(&mut out, line[i]);
            proof {
                assert forall|k: int| di <= k < ds.len() implies i + 1 <= (#[trigger] ds[k]).0 by {
                    if k > di {
                        assert(ds[di as int].1 <= ds[k].0);
                        assert(ds[di as int].0 < ds[di as int].1);
                    }
                }
                assert forall|k: int| ti <= k < ts.len() implies i + 1 <= (#[trigger] ts[k]).0 by {
                    if k > ti {
                        assert(ts[ti as int].1 <= ts[k].0);
                        assert(ts[ti as int].0 < ts[ti as int].1);
                    }
                }
                assert(out@ + rewrite(line@, ds, ts, i + 1) =~= before + rewrite(
                    line@,
                    ds,
                    ts,
                    i as int,
                ));
            }
            i = i + 1;
        }
    }
    assert(out@ =~= out@ + rewrite(line@, ds, ts, i as int));
    out
}


/// A digit character is an ASCII digit of its value.
pub(crate) proof fn lemma_digit_char(d: int)
    requires
        0 <= d <= 9,
    ensures
        is_digit_char(digit_char(d)),
        digit_value(digit_char(d)) == d,
        !is_alpha_char(digit_char(d)),
{
}

proof fn lemma_decimal_two(n: nat)
    requires
        n < 100,
    ensures
        n < 10 ==> decimal(n) == seq![digit_char(n as int)],
        n >= 10 ==> decimal(n) == seq![digit_char((n / 10) as int), digit_char((n % 10) as int)],
{
    if n >= 10 {
        assert(decimal((n / 10) as nat) == seq![digit_char((n / 10) as int)]);
        assert(decimal(n) =~= seq![digit_char((n / 10) as int), digit_char((n % 10) as int)]);
    }
}

/// A readable time reads back as the time it was written from: the whole of
/// `format_time_spec(t)` is one time token holding the hour and the minute
/// of `t`.
pub proof fn lemma_formatted_time_reads_back(hour: int, minute: int)
    requires
        0 <= hour < 24,
        0 <= minute < 60,
    ensures
        time_match(format_time_spec((hour, minute, 0)), 0) == Some(
            (format_time_spec((hour, minute, 0)).len() as int, (hour, minute, 0int)),
        ),
{
    let s = format_time_spec((hour, minute, 0));
    let h12 = hour12(hour);
    assert(1 <= h12 <= 12);
    lemma_decimal_two(h12 as nat);
    lemma_decimal_two(minute as nat);
    let hd = decimal(h12 as nat);
    let md = two_digits(minute as nat);
    let suffix: Seq<char> = if hour >= 12 {
        "PM"@
    } else {
        "AM"@
    };
    reveal_strlit("PM");
    reveal_strlit("AM");
    reveal_strlit(":");
    reveal_strlit(" ");
    reveal_strlit("0");
    assert(s == hd + ":"@ + md + " "@ + suffix);
    assert(md == seq![digit_char(minute / 10), digit_char(minute % 10)]) by {
        if minute < 10 {
            assert(md =~= seq![digit_char(minute / 10), digit_char(minute % 10)]);
        }
    }
    let i = hd.len() as int;
    lemma_digit_char(minute / 10);
    lemma_digit_char(minute % 10);
    if h12 < 10 {
        lemma_digit_char(h12);
        assert(s[0] == digit_char(h12));
    } else {
        lemma_digit_char(h12 / 10);
        lemma_digit_char(h12 % 10);
        assert(s[0] == digit_char(h12 / 10));
        assert(s[1] == digit_char(h12 % 10));
    }
    assert(s[i] == ':');
    assert(s[i + 1] == digit_char(minute / 10));
    assert(s[i + 2] == digit_char(minute % 10));
    assert(s[i + 3] == ' ');
    assert(s.len() == i + 6);
    reveal_with_fuel(digit_run, 3);
    reveal_with_fuel(digits_value, 3);
    assert(parse_digits_spec(s, 0, 2) == Some((h12, i)));
    assert(skip_spaces(s, i + 4) == i + 4);
    assert(skip_spaces(s, i + 3) == i + 4);
    assert(s[i + 4] == suffix[0]);
    assert(s[i + 5] == suffix[1]);
    assert(is_meridiem(s, i + 4, 'p') == (hour >= 12));
    assert(hour24(h12, hour >= 12) == hour);
    assert(time_prefix_spec(s, 0) == Some((s.len() as int, hour, minute)));
}

proof fn lemma_no_dates(s: Seq<char>, p: int, consumed: int)
    requires
        forall|k: int| 0 <= k < s.len() ==> s[k] != '/',
    ensures
        date_scan(s, p, consumed) == Seq::<(int, int, (int, int, int))>::empty(),
    decreases s.len() - p,
{
    if p < s.len() {
        lemma_no_dates(s, p + 1, consumed);
        if let Some((month, i)) = parse_digits_spec(s, p, 2) {
            lemma_digit_run(s, p, 2);
        }
        if p >= 0 {
            lemma_digit_run(s, p, 2);
        }
        assert(date_match(s, p) is None);
    }
}

proof fn lemma_time_scan_consumed(s: Seq<char>, p: int, consumed: int)
    requires
        consumed >= s.len(),
    ensures
        time_scan(s, p, consumed) == Seq::<(int, int, (int, int, int))>::empty(),
    decreases s.len() - p,
{
    if p < s.len() {
        lemma_time_scan_consumed(s, p + 1, consumed);
    }
}

/// Normalizing a readable time changes nothing: it is found as one time
/// token and written again as itself.
pub proof fn lemma_formatted_time_is_normal(hour: int, minute: int)
    requires
        0 <= hour < 24,
        0 <= minute < 60,
    ensures
        normalize_line_spec(format_time_spec((hour, minute, 0))) == format_time_spec(
            (hour, minute, 0),
        ),
{
    let t = (hour, minute, 0int);
    let s = format_time_spec(t);
    lemma_formatted_time_reads_back(hour, minute);
    let h12 = hour12(hour);
    lemma_decimal_two(h12 as nat);
    lemma_decimal_two(minute as nat);
    reveal_strlit("PM");
    reveal_strlit("AM");
    reveal_strlit(":");
    reveal_strlit(" ");
    reveal_strlit("0");
    assert forall|k: int| 0 <= k < s.len() implies s[k] != '/' by {
        let hd = decimal(h12 as nat);
        let md = two_digits(minute as nat);
        if h12 < 10 {
            lemma_digit_char(h12);
        } else {
            lemma_digit_char(h12 / 10);
            lemma_digit_char(h12 % 10);
        }
        if minute < 10 {
            lemma_digit_char(minute);
        } else {
            lemma_digit_char(minute / 10);
            lemma_digit_char(minute % 10);
        }
        let suffix: Seq<char> = if hour >= 12 {
            "PM"@
        } else {
            "AM"@
        };
        assert(s == hd + ":"@ + md + " "@ + suffix);
        if k < hd.len() {
            assert(s[k] == hd[k]);
        } else if k == hd.len() {
        } else if k < hd.len() + 1 + md.len() {
            assert(s[k] == md[k - hd.len() - 1]);
        } else if k == hd.len() + 1 + md.len() {
        } else {
            assert(s[k] == suffix[k - hd.len() - 2 - md.len()]);
        }
    }
    lemma_no_dates(s, 0, 0);
    lemma_time_scan_consumed(s, 1, s.len() as int);
    let ts = time_edits(s);
    assert(time_scan(s, 0, 0) == seq![(0int, s.len() as int, t)] + time_scan(s, 1, s.len() as int));
    assert(ts =~= seq![(0int, s.len() as int, s)]);
    assert(date_edits(s) =~= Seq::<Edit>::empty());
    assert(edit_at(date_edits(s), ts, 0) == Some((0int, s.len() as int, s)));
    assert(rewrite(s, date_edits(s), ts, s.len() as int) == Seq::<char>::empty());
    assert(rewrite(s, date_edits(s), ts, 0) =~= s);
}

proof fn lemma_digits_value_prefix(s: Seq<char>, p: Seq<char>, m: int)
    requires
        0 <= m <= p.len(),
        m <= s.len(),
        forall|k: int| 0 <= k < m ==> s[k] == p[k],
    ensures
        digits_value(s, 0, m) == digits_value(p, 0, m),
    decreases m,
{
    if m > 0 {
        lemma_digits_value_prefix(s, p, m - 1);
    }
}

/// The decimal form of a number is all digits, and reads back as the number.
pub(crate) proof fn lemma_decimal_digits(n: nat)
    ensures
        decimal(n).len() >= 1,
        all_digits(decimal(n), 0, decimal(n).len() as int),
        digits_value(decimal(n), 0, decimal(n).len() as int) == n,
    decreases n,
{
    let s = decimal(n);
    if n < 10 {
        lemma_digit_char(n as int);
        assert(digit_at(s, 0));
        assert(digits_value(s, 0, 0) == 0);
    } else {
        let p = decimal(n / 10);
        lemma_decimal_digits(n / 10);
        lemma_digit_char((n % 10) as int);
        assert(s == p.push(digit_char((n % 10) as int)));
        assert forall|k: int| 0 <= k < 0 + s.len() implies #[trigger] digit_at(s, k) by {
            if k < p.len() {
                lemma_all_digits_at(p, 0, p.len() as int, k);
                assert(s[k] == p[k]);
            }
        }
        lemma_digits_value_prefix(s, p, p.len() as int);
    }
}

/// The text does not hold the character `c`.
pub open spec fn lacks(s: Seq<char>, c: char) -> bool {
    forall|k: int| 0 <= k < s.len() ==> #[trigger] s[k] != c
}

/// The text holds no newline.
pub open spec fn no_newline(s: Seq<char>) -> bool {
    lacks(s, '\n')
}

proof fn lemma_lacks_short(s: Seq<char>, c: char)
    requires
        s.len() <= 9,
        s.len() > 0 ==> s[0] != c,
        s.len() > 1 ==> s[1] != c,
        s.len() > 2 ==> s[2] != c,
        s.len() > 3 ==> s[3] != c,
        s.len() > 4 ==> s[4] != c,
        s.len() > 5 ==> s[5] != c,
        s.len() > 6 ==> s[6] != c,
        s.len() > 7 ==> s[7] != c,
        s.len() > 8 ==> s[8] != c,
    ensures
        lacks(s, c),
{
    assert forall|k: int| 0 <= k < s.len() implies #[trigger] s[k] != c by {
        if k == 0 {
        } else if k == 1 {
        } else if k == 2 {
        } else if k == 3 {
        } else if k == 4 {
        } else if k == 5 {
        } else if k == 6 {
        } else if k == 7 {
        } else {
        }
    }
}

proof fn lemma_lacks_add(a: Seq<char>, b: Seq<char>, c: char)
    requires
        lacks(a, c),
        lacks(b, c),
    ensures
        lacks(a + b, c),
{
    assert forall|k: int| 0 <= k < (a + b).len() implies #[trigger] (a + b)[k] != c by {
        if k < a.len() {
            assert((a + b)[k] == a[k]);
        } else {
            assert((a + b)[k] == b[k - a.len()]);
        }
    }
}

proof fn lemma_decimal_lacks(n: nat, c: char)
    requires
        !is_digit_char(c),
    ensures
        lacks(decimal(n), c),
{
    lemma_decimal_digits(n);
    let d = decimal(n);
    assert forall|k: int| 0 <= k < d.len() implies #[trigger] d[k] != c by {
        lemma_all_digits_at(d, 0, d.len() as int, k);
    }
}

proof fn lemma_weekday_name_lacks(i: int, c: char)
    requires
        !is_alpha_char(c),
    ensures
        lacks(weekday_name_spec(i), c),
{
    reveal_strlit("Sunday");
    reveal_strlit("Monday");
    reveal_strlit("Tuesday");
    reveal_strlit("Wednesday");
    reveal_strlit("Thursday");
    reveal_strlit("Friday");
    reveal_strlit("Saturday");
    lemma_lacks_short(weekday_name_spec(i), c);
}

proof fn lemma_month_name_lacks(m: int, c: char)
    requires
        !is_alpha_char(c),
    ensures
        lacks(month_name_spec(m), c),
{
    reveal_strlit("January");
    reveal_strlit("February");
    reveal_strlit("March");
    reveal_strlit("April");
    reveal_strlit("May");
    reveal_strlit("June");
    reveal_strlit("July");
    reveal_strlit("August");
    reveal_strlit("September");
    reveal_strlit("October");
    reveal_strlit("November");
    reveal_strlit("December");
    reveal_strlit("");
    lemma_lacks_short(month_name_spec(m), c);
}

/// A readable date holds no character other than ASCII letters and digits,
/// spaces, commas and a minus sign.
proof fn lemma_format_date_lacks(d: (int, int, int), c: char)
    requires
        !is_alnum_char(c),
        c != ' ',
        c != ',',
        c != '-',
    ensures
        lacks(format_date_spec(d), c),
{
    reveal_strlit(" ");
    reveal_strlit(", ");
    reveal_strlit("th");
    reveal_strlit("st");
    reveal_strlit("nd");
    reveal_strlit("rd");
    lemma_weekday_name_lacks(weekday_spec(d.0, d.1, d.2), c);
    lemma_month_name_lacks(d.1, c);
    lemma_decimal_lacks(d.2 as nat, c);
    lemma_lacks_short(ordinal_suffix(d.2), c);
    lemma_lacks_add(decimal(d.2 as nat), ordinal_suffix(d.2), c);
    lemma_lacks_short(" "@, c);
    lemma_lacks_short(", "@, c);
    if d.0 < 0 {
        lemma_decimal_lacks((-d.0) as nat, c);
        lemma_lacks_short(seq!['-'], c);
        lemma_lacks_add(seq!['-'], decimal((-d.0) as nat), c);
    } else {
        lemma_decimal_lacks(d.0 as nat, c);
    }
    let w = weekday_name_spec(weekday_spec(d.0, d.1, d.2));
    let a = w + " "@;
    lemma_lacks_add(w, " "@, c);
    let b = a + month_name_spec(d.1);
    lemma_lacks_add(a, month_name_spec(d.1), c);
    let e0 = b + " "@;
    lemma_lacks_add(b, " "@, c);
    let e = e0 + ordinal_spec(d.2 as nat);
    lemma_lacks_add(e0, ordinal_spec(d.2 as nat), c);
    let f = e + ", "@;
    lemma_lacks_add(e, ", "@, c);
    lemma_lacks_add(f, signed_decimal(d.0), c);
}

/// A readable time holds no character other than ASCII letters and digits,
/// a colon and spaces.
proof fn lemma_format_time_lacks(t: (int, int, int), c: char)
    requires
        !is_alnum_char(c),
        c != ' ',
        c != ':',
    ensures
        lacks(format_time_spec(t), c),
{
    reveal_strlit(":");
    reveal_strlit(" ");
    reveal_strlit("0");
    reveal_strlit("AM");
    reveal_strlit("PM");
    lemma_decimal_lacks(hour12(t.0) as nat, c);
    lemma_decimal_lacks(t.1 as nat, c);
    lemma_lacks_short(":"@, c);
    lemma_lacks_short(" "@, c);
    lemma_lacks_short("0"@, c);
    lemma_lacks_add("0"@, decimal(t.1 as nat), c);
    let suffix: Seq<char> = if t.0 >= 12 {
        "PM"@
    } else {
        "AM"@
    };
    lemma_lacks_short(suffix, c);
    let a = decimal(hour12(t.0) as nat) + ":"@;
    lemma_lacks_add(decimal(hour12(t.0) as nat), ":"@, c);
    let b = a + two_digits(t.1 as nat);
    lemma_lacks_add(a, two_digits(t.1 as nat), c);
    let e = b + " "@;
    lemma_lacks_add(b, " "@, c);
    lemma_lacks_add(e, suffix, c);
}

proof fn lemma_find_edit_member(es: Seq<Edit>, i: int)
    ensures
        find_edit(es, i) matches Some(e) ==> exists|k: int| 0 <= k < es.len() && es[k] == e,
    decreases es.len(),
{
    if es.len() > 0 {
        if es[0].0 == i {
            assert(es[0] == find_edit(es, i).unwrap());
        } else {
            let rest = es.drop_first();
            lemma_find_edit_member(rest, i);
            if let Some(e) = find_edit(rest, i) {
                let k = choose|k: int| 0 <= k < rest.len() && rest[k] == e;
                assert(es[k + 1] == e);
            }
        }
    }
}

proof fn lemma_rewrite_no_newline(s: Seq<char>, ds: Seq<Edit>, ts: Seq<Edit>, i: int)
    requires
        0 <= i,
        no_newline(s),
        forall|k: int| 0 <= k < ds.len() ==> no_newline((#[trigger] ds[k]).2),
        forall|k: int| 0 <= k < ts.len() ==> no_newline((#[trigger] ts[k]).2),
    ensures
        no_newline(rewrite(s, ds, ts, i)),
    decreases s.len() - i,
{
    if i < s.len() {
        lemma_find_edit_member(ds, i);
        lemma_find_edit_member(ts, i);
        lemma_lacks_short(seq![s[i]], '\n');
        match edit_at(ds, ts, i) {
            Some(e) => if i < e.1 <= s.len() {
                lemma_rewrite_no_newline(s, ds, ts, e.1);
                if find_edit(ds, i) is Some {
                    let k = choose|k: int| 0 <= k < ds.len() && ds[k] == e;
                    assert(no_newline(ds[k].2));
                } else {
                    let k = choose|k: int| 0 <= k < ts.len() && ts[k] == e;
                    assert(no_newline(ts[k].2));
                }
                lemma_lacks_add(e.2, rewrite(s, ds, ts, e.1), '\n');
            } else {
                lemma_rewrite_no_newline(s, ds, ts, i + 1);
                lemma_lacks_add(seq![s[i]], rewrite(s, ds, ts, i + 1), '\n');
            },
            None => {
                lemma_rewrite_no_newline(s, ds, ts, i + 1);
                lemma_lacks_add(seq![s[i]], rewrite(s, ds, ts, i + 1), '\n');
            },
        }
    }
}

/// Normalizing a line keeps it one line: a line without a newline is
/// rewritten without one.
pub proof fn lemma_normalized_line_has_no_newline(line: Seq<char>)
    requires
        no_newline(line),
    ensures
        no_newline(normalize_line_spec(line)),
{
    let ds = date_edits(line);
    let ts = time_edits(line);
    assert forall|k: int| 0 <= k < ds.len() implies no_newline((#[trigger] ds[k]).2) by {
        lemma_format_date_lacks(date_scan(line, 0, 0)[k].2, '\n');
    }
    assert forall|k: int| 0 <= k < ts.len() implies no_newline((#[trigger] ts[k]).2) by {
        lemma_format_time_lacks(time_scan(line, 0, 0)[k].2, '\n');
    }
    lemma_rewrite_no_newline(line, ds, ts, 0);
}

proof fn lemma_no_times(s: Seq<char>, p: int, consumed: int)
    requires
        lacks(s, ':'),
    ensures
        time_scan(s, p, consumed) == Seq::<(int, int, (int, int, int))>::empty(),
    decreases s.len() - p,
{
    if p < s.len() {
        lemma_no_times(s, p + 1, consumed);
        if p >= 0 {
            lemma_digit_run(s, p, 2);
        }
        assert(time_match(s, p) is None);
    }
}

proof fn lemma_rewrite_nothing(s: Seq<char>, i: int)
    requires
        0 <= i <= s.len(),
    ensures
        rewrite(s, Seq::<Edit>::empty(), Seq::<Edit>::empty(), i) == s.skip(i),
    decreases s.len() - i,
{
    if i < s.len() {
        lemma_rewrite_nothing(s, i + 1);
        assert(s.skip(i) =~= seq![s[i]] + s.skip(i + 1));
    } else {
        assert(s.skip(i) =~= Seq::<char>::empty());
    }
}

/// Normalizing a readable date changes nothing: it holds no slash and no
/// colon, so no typed date or time is found in it.
pub proof fn lemma_formatted_date_is_normal(d: (int, int, int))
    ensures
        normalize_line_spec(format_date_spec(d)) == format_date_spec(d),
{
    let s = format_date_spec(d);
    lemma_format_date_lacks(d, '/');
    lemma_format_date_lacks(d, ':');
    lemma_no_dates(s, 0, 0);
    lemma_no_times(s, 0, 0);
    assert(date_edits(s) =~= Seq::<Edit>::empty());
    assert(time_edits(s) =~= Seq::<Edit>::empty());
    lemma_rewrite_nothing(s, 0);
    assert(s.skip(0) =~= s);
}

} // verus!

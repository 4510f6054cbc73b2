//! Desktop identifiers: how a desktop (a macOS Space on a display) is named,
//! and what can be read back from its name.
use crate::normalize::dedup_seq;
use crate::reminder::push_unique;
use crate::text::{
    chars_of, decimal, eq_ignore_ascii_case, eq_ignore_ascii_case_spec, matches_at, occurs_at,
    push_chars, push_decimal, push_str, seq_contains, string_from,
};
use crate::tokens::{all_digits, digit_at, digits_value, lemma_all_digits_at, lemma_decimal_digits};
use vstd::prelude::*;

verus! {

/// The desktop used when no desktop can be read from the system.
pub open spec fn default_desktop_id() -> Seq<char> {
    "desktop:default"@
}

/// `s` starts with `p`.
pub open spec fn has_prefix(s: Seq<char>, p: Seq<char>) -> bool {
    occurs_at(s, p, 0)
}

/// The first position at or after `i` where `needle` occurs in `hay`.
pub open spec fn find_from(hay: Seq<char>, needle: Seq<char>, i: int) -> Option<int>
    decreases hay.len() + 1 - i,
{
    if i < 0 || i + needle.len() > hay.len() {
        None
    } else if occurs_at(hay, needle, i) {
        Some(i)
    } else {
        find_from(hay, needle, i + 1)
    }
}

/// The last position at or before `i` where `needle` occurs in `hay`.
pub open spec fn rfind_from(hay: Seq<char>, needle: Seq<char>, i: int) -> Option<int>
    decreases i + 1,
{
    if i < 0 {
        None
    } else if occurs_at(hay, needle, i) {
        Some(i)
    } else {
        rfind_from(hay, needle, i - 1)
    }
}

/// The identifier of the desktop showing a space on a display (or on the only
/// display): "display:D/space:S", or "space:S".
pub open spec fn desktop_id_for_space_spec(display: Option<Seq<char>>, space: Seq<char>) -> Seq<char> {
    match display {
        Some(d) => "display:"@ + d + "/space:"@ + space,
        None => "space:"@ + space,
    }
}

/// The display part of a desktop identifier "display:D/space:S": D, up to the
/// first "/space:".
pub open spec fn display_identifier_spec(id: Seq<char>) -> Option<Seq<char>> {
    if has_prefix(id, "display:"@) {
        let rest = id.skip("display:"@.len() as int);
        match find_from(rest, "/space:"@, 0) {
            Some(k) => Some(rest.take(k)),
            None => None,
        }
    } else {
        None
    }
}

/// The space part of a desktop identifier: after its last "/space:", or
/// after a leading "space:".
pub open spec fn space_part_spec(id: Seq<char>) -> Option<Seq<char>> {
    match rfind_from(id, "/space:"@, id.len() - "/space:"@.len()) {
        Some(i) => Some(id.skip(i + "/space:"@.len())),
        None => if has_prefix(id, "space:"@) {
            Some(id.skip("space:"@.len() as int))
        } else {
            None
        },
    }
}

/// The number of a space part "id:N" or "managed:N", as text.
pub open spec fn space_number_spec(space: Seq<char>) -> Option<Seq<char>> {
    if has_prefix(space, "id:"@) {
        Some(space.skip("id:"@.len() as int))
    } else if has_prefix(space, "managed:"@) {
        Some(space.skip("managed:"@.len() as int))
    } else {
        None
    }
}

/// The value of a decimal `u64` as `str::parse::<u64>` reads it: an optional
/// `+`, then at least one ASCII digit and nothing else, of a value that fits.
pub open spec fn parse_u64_spec(s: Seq<char>) -> Option<int> {
    let d = if s.len() > 0 && s[0] == '+' {
        s.drop_first()
    } else {
        s
    };
    if d.len() == 0 || !all_digits(d, 0, d.len() as int) {
        None
    } else if digits_value(d, 0, d.len() as int) > u64::MAX {
        None
    } else {
        Some(digits_value(d, 0, d.len() as int))
    }
}

/// The managed space number a desktop identifier names.
pub open spec fn managed_space_id_spec(id: Seq<char>) -> Option<int> {
    match space_part_spec(id) {
        Some(space) => match space_number_spec(space) {
            Some(n) => parse_u64_spec(n),
            None => None,
        },
        None => None,
    }
}

proof fn lemma_find_from(hay: Seq<char>, needle: Seq<char>, i: int)
    ensures
        find_from(hay, needle, i) matches Some(k) ==> i <= k && occurs_at(hay, needle, k),
    decreases hay.len() + 1 - i,
{
    if !(i < 0 || i + needle.len() > hay.len()) && !occurs_at(hay, needle, i) {
        lemma_find_from(hay, needle, i + 1);
    }
}

proof fn lemma_rfind_from(hay: Seq<char>, needle: Seq<char>, i: int)
    ensures
        rfind_from(hay, needle, i) matches Some(k) ==> 0 <= k <= i && occurs_at(hay, needle, k),
    decreases i + 1,
{
    if i >= 0 && !occurs_at(hay, needle, i) {
        lemma_rfind_from(hay, needle, i - 1);
    }
}

proof fn lemma_digits_value_nonneg(d: Seq<char>, n: int)
    requires
        all_digits(d, 0, n),
    ensures
        0 <= digits_value(d, 0, n),
    decreases n,
{
    if n > 0 {
        assert forall|x: int| 0 <= x < 0 + (n - 1) implies #[trigger] digit_at(d, x) by {
            lemma_all_digits_at(d, 0, n, x);
        }
        lemma_digits_value_nonneg(d, n - 1);
        lemma_all_digits_at(d, 0, n, n - 1);
    }
}

/// Whether `s` starts with `p`.
pub fn starts_with(s: &[char], p: &[char]) -> (r: bool)
    ensures
        r == has_prefix(s@, p@),
{
    matches_at(s, p, 0)
}

/// The first position at or after `from` where `needle` occurs in `hay`.
pub fn find_chars(hay: &[char], needle: &[char], from: usize) -> (r: Option<usize>)
    ensures
        r matches Some(i) ==> find_from(hay@, needle@, from as int) == Some(i as int),
        r is None <==> find_from(hay@, needle@, from as int) is None,
{
    if needle.len() > hay.len() || from > hay.len() - needle.len() {
        return None;
    }
    let last = hay.len() - needle.len();
    let mut i = from;
    while i <= last
        invariant
            last == hay.len() - needle.len(),
            from <= i <= last + 1,
            find_from(hay@, needle@, from as int) == find_from(hay@, needle@, i as int),
        decreases last + 1 - i,
    {
        if matches_at(hay, needle, i) {
            return Some(i);
        }
        if i == last {
            assert(find_from(hay@, needle@, i + 1) is None);
            return None;
        }
        i = i + 1;
    }
    None
}

/// The last position where `needle` occurs in `hay`.
pub fn rfind_chars(hay: &[char], needle: &[char]) -> (r: Option<usize>)
    ensures
        r matches Some(i) ==> rfind_from(hay@, needle@, hay@.len() - needle@.len()) == Some(i as int),
        r is None <==> rfind_from(hay@, needle@, hay@.len() - needle@.len()) is None,
{
    if needle.len() > hay.len() {
        return None;
    }
    let mut i = hay.len() - needle.len();
    loop
        invariant
            i <= hay.len() - needle.len(),
            rfind_from(hay@, needle@, hay@.len() - needle@.len()) == rfind_from(hay@, needle@, i as int),
        decreases i,
    {
        if matches_at(hay, needle, i) {
            return Some(i);
        }
        if i == 0 {
            assert(rfind_from(hay@, needle@, -1) is None);
            return None;
        }
        i = i - 1;
    }
}

/// The characters from position `from` on.
fn skip_chars(s: &[char], from: usize) -> (r: Vec<char>)
    requires
        from <= s.len(),
    ensures
        r@ == s@.skip(from as int),
{
    let mut out: Vec<char> = Vec::new();
    let mut i = from;
    while i < s.len()
        invariant
            from <= i <= s.len(),
            out@ == s@.subrange(from as int, i as int),
        decreases s.len() - i,
    {
        out.push(s[i]);
        i = i + 1;
        assert(out@ =~= s@.subrange(from as int, i as int));
    }
    assert(out@ =~= s@.skip(from as int));
    out
}

/// The first `n` characters.
fn take_chars(s: &[char], n: usize) -> (r: Vec<char>)
    requires
        n <= s.len(),
    ensures
        r@ == s@.take(n as int),
{
    let mut out: Vec<char> = Vec::new();
    let mut i: usize = 0;
    while i < n
        invariant
            i <= n <= s.len(),
            out@ == s@.take(i as int),
        decreases n - i,
    {
        out.push(s[i]);
        i = i + 1;
        assert(out@ =~= s@.take(i as int));
    }
    out
}

proof fn lemma_digits_value_mono(d: Seq<char>, k: int, n: int)
    requires
        0 <= k <= n,
        all_digits(d, 0, n),
    ensures
        digits_value(d, 0, k) <= digits_value(d, 0, n),
    decreases n - k,
{
    if k < n {
        assert forall|x: int| 0 <= x < 0 + (n - 1) implies #[trigger] digit_at(d, x) by {
            lemma_all_digits_at(d, 0, n, x);
        }
        lemma_digits_value_mono(d, k, n - 1);
        lemma_digits_value_nonneg(d, n - 1);
        lemma_all_digits_at(d, 0, n, n - 1);
        assert(digits_value(d, 0, n) == digits_value(d, 0, n - 1) * 10 + (d[n - 1] as int - '0' as int));
    }
}

/// A decimal `u64` as `str::parse::<u64>` reads it: an optional `+`, then
/// ASCII digits only, of a value that fits.
pub fn parse_u64(s: &[char]) -> (r: Option<u64>)
    ensures
        r matches Some(v) ==> parse_u64_spec(s@) == Some(v as int),
        r is None <==> parse_u64_spec(s@) is None,
{
    let start: usize = if s.len() > 0 && s[0] == '+' {
        1
    } else {
        0
    };
    let ghost d = if s@.len() > 0 && s@[0] == '+' {
        s@.drop_first()
    } else {
        s@
    };
    assert(d =~= s@.skip(start as int));
    if start >= s.len() {
        return None;
    }
    let mut value: u128 = 0;
    let mut i: usize = start;
    while i < s.len()
        invariant
            start <= i <= s.len(),
            start < s.len(),
            d == s@.skip(start as int),
            d == (if s@.len() > 0 && s@[0] == '+' {
                s@.drop_first()
            } else {
                s@
            }),
            all_digits(d, 0, i - start),
            value as int == digits_value(d, 0, i - start),
            value <= u64::MAX,
        decreases s.len() - i,
    {
        let c = s[i];
        let ghost k = i - start;
        assert(d[k] == c);
        if !('0' <= c && c <= '9') {
            assert(!all_digits(d, 0, d.len() as int)) by {
                if all_digits(d, 0, d.len() as int) {
                    lemma_all_digits_at(d, 0, d.len() as int, k);
                }
            }
            return None;
        }
        let next: u128 = value * 10 + ((c as u32) - ('0' as u32)) as u128;
        assert(forall|x: int| 0 <= x < 0 + (k + 1) ==> #[trigger] digit_at(d, x)) by {
            assert forall|x: int| 0 <= x < 0 + (k + 1) implies #[trigger] digit_at(d, x) by {
                if x < k {
                    lemma_all_digits_at(d, 0, k, x);
                }
            }
        }
        if next > 18446744073709551615u128 {
            assert(digits_value(d, 0, k + 1) > u64::MAX);
            assert(!(parse_u64_spec(s@) is Some)) by {
                if all_digits(d, 0, d.len() as int) {
                    lemma_digits_value_mono(d, k + 1, d.len() as int);
                }
            }
            return None;
        }
        value = next;
        i = i + 1;
    }
    assert(i - start == d.len());
    Some(value as u64)
}

/// An active desktop: the display it is on, when known, and its identifier.
pub struct ActiveDesktop {
    pub display_identifier: Option<String>,
    pub desktop_id: String,
}

/// The identifier of the desktop showing a space on a display:
/// "display:D/space:S", or "space:S" when the display is not known.
pub fn desktop_id_for_space(display_identifier: Option<&str>, space_identifier: &str) -> (r: String)
    ensures
        r@ == desktop_id_for_space_spec(
            match display_identifier {
                Some(d) => Some(d@),
                None => None,
            },
            space_identifier@,
        ),
{
    match display_identifier {
        Some(display) => {
            let mut out = string_from("display:");
            push_str(&mut out, display);
            push_str(&mut out, "/space:");
            push_str(&mut out, space_identifier);
            out
        },
        None => {
            let mut out = string_from("space:");
            push_str(&mut out, space_identifier);
            out
        },
    }
}

/// The display part of a desktop identifier "display:D/space:S".
pub fn desktop_display_identifier(desktop_id: &str) -> (r: Option<String>)
    ensures
        match r {
            Some(d) => display_identifier_spec(desktop_id@) == Some(d@),
            None => display_identifier_spec(desktop_id@) is None,
        },
{
    let id = chars_of(desktop_id);
    let prefix = chars_of("display:");
    if !starts_with(&id, &prefix) {
        return None;
    }
    let rest = skip_chars(&id, prefix.len());
    let marker = chars_of("/space:");
    match find_chars(&rest, &marker, 0) {
        Some(k) => {
            proof {
                lemma_find_from(rest@, marker@, 0);
            }
            let display = take_chars(&rest, k);
            let mut out = String::new();
            push_chars(&mut out, &display);
            assert(out@ =~= display@);
            Some(out)
        },
        None => None,
    }
}

/// The managed space number a desktop identifier names: the number after
/// "id:" or "managed:" in its space part.
pub fn managed_space_id_from_desktop_id(desktop_id: &str) -> (r: Option<u64>)
    ensures
        match r {
            Some(v) => managed_space_id_spec(desktop_id@) == Some(v as int),
            None => managed_space_id_spec(desktop_id@) is None,
        },
{
    let id = chars_of(desktop_id);
    let marker = chars_of("/space:");
    proof {
        lemma_rfind_from(id@, marker@, id@.len() - marker@.len());
    }
    let space = match rfind_chars(&id, &marker) {
        Some(i) => {
            assert(occurs_at(id@, marker@, i as int));
            let total = id.len();
            assert(i + marker@.len() <= total);
            skip_chars(&id, i + marker.len())
        },
        None => {
            let prefix = chars_of("space:");
            if starts_with(&id, &prefix) {
                skip_chars(&id, prefix.len())
            } else {
                return None;
            }
        },
    };
    let id_prefix = chars_of("id:");
    let managed_prefix = chars_of("managed:");
    let number = if starts_with(&space, &id_prefix) {
        skip_chars(&space, id_prefix.len())
    } else if starts_with(&space, &managed_prefix) {
        skip_chars(&space, managed_prefix.len())
    } else {
        return None;
    };
    parse_u64(&number)
}

proof fn lemma_find_from_first(hay: Seq<char>, needle: Seq<char>, i: int, target: int)
    requires
        0 <= i <= target,
        occurs_at(hay, needle, target),
        forall|j: int| i <= j < target ==> !#[trigger] occurs_at(hay, needle, j),
    ensures
        find_from(hay, needle, i) == Some(target),
    decreases target - i,
{
    if i < target {
        lemma_find_from_first(hay, needle, i + 1, target);
    }
}

proof fn lemma_rfind_from_last(hay: Seq<char>, needle: Seq<char>, i: int, target: int)
    requires
        0 <= target <= i,
        occurs_at(hay, needle, target),
        forall|j: int| target < j <= i ==> !#[trigger] occurs_at(hay, needle, j),
    ensures
        rfind_from(hay, needle, i) == Some(target),
    decreases i - target,
{
    if target < i {
        lemma_rfind_from_last(hay, needle, i - 1, target);
    }
}

/// The display a desktop identifier was made with is read back from it,
/// unless the display's own name holds "/space:".
pub proof fn lemma_display_identifier_round_trip(display: Seq<char>, space: Seq<char>)
    requires
        !seq_contains(display, "/space:"@),
    ensures
        display_identifier_spec(desktop_id_for_space_spec(Some(display), space)) == Some(display),
{
    let id = desktop_id_for_space_spec(Some(display), space);
    let marker = "/space:"@;
    reveal_strlit("/space:");
    reveal_strlit("display:");
    assert(id.subrange(0, 8) =~= "display:"@);
    let rest = id.skip("display:"@.len() as int);
    assert(rest =~= display + marker + space);
    let n = display.len() as int;
    assert(rest.subrange(n, n + 7) =~= marker);
    assert forall|j: int| 0 <= j < n implies !#[trigger] occurs_at(rest, marker, j) by {
        if occurs_at(rest, marker, j) {
            if j + 7 <= n {
                assert(display.subrange(j, j + 7) =~= rest.subrange(j, j + 7));
                assert(occurs_at(display, marker, j));
            } else {
                assert(rest.subrange(j, j + 7)[n - j] == rest[n]);
                assert(rest[n] == '/');
                assert(marker[n - j] != '/');
            }
        }
    }
    lemma_find_from_first(rest, marker, 0, n);
    assert(rest.take(n) =~= display);
}

/// A managed space number written into a desktop identifier, as "id:N" or
/// "managed:N", is read back from it, whatever the display.
pub proof fn lemma_managed_space_id_round_trip(display: Option<Seq<char>>, n: nat, managed: bool)
    requires
        n <= u64::MAX,
    ensures
        managed_space_id_spec(
            desktop_id_for_space_spec(
                display,
                (if managed {
                    "managed:"@
                } else {
                    "id:"@
                }) + decimal(n),
            ),
        ) == Some(n as int),
{
    let pre: Seq<char> = if managed {
        "managed:"@
    } else {
        "id:"@
    };
    let digits = decimal(n);
    let sp = pre + digits;
    let id = desktop_id_for_space_spec(display, sp);
    let marker = "/space:"@;
    reveal_strlit("/space:");
    reveal_strlit("space:");
    reveal_strlit("display:");
    reveal_strlit("managed:");
    reveal_strlit("id:");
    lemma_decimal_digits(n);
    assert forall|k: int| 0 <= k < sp.len() implies sp[k] != '/' by {
        if k >= pre.len() {
            lemma_all_digits_at(digits, 0, digits.len() as int, k - pre.len());
            assert(sp[k] == digits[k - pre.len()]);
        }
    }
    match display {
        Some(d) => {
            let t: int = 8 + d.len() as int;
            assert(id =~= "display:"@ + d + marker + sp);
            assert(id.subrange(t, t + 7) =~= marker);
            assert forall|j: int| t < j <= id.len() - marker.len() implies !#[trigger] occurs_at(
                id,
                marker,
                j,
            ) by {
                if occurs_at(id, marker, j) {
                    assert(id.subrange(j, j + 7)[0] == id[j]);
                    if j < t + 7 {
                        assert(id[j] == marker[j - t]);
                    } else {
                        assert(id[j] == sp[j - t - 7]);
                    }
                }
            }
            lemma_rfind_from_last(id, marker, id.len() - marker.len(), t);
            assert(id.skip(t + 7) =~= sp);
        },
        None => {
            assert(id =~= "space:"@ + sp);
            lemma_rfind_from(id, marker, id.len() - marker.len());
            if let Some(j) = rfind_from(id, marker, id.len() - marker.len()) {
                assert(id.subrange(j, j + 7)[0] == id[j]);
                if j < 6 {
                    assert(id[j] == "space:"@[j]);
                } else {
                    assert(id[j] == sp[j - 6]);
                }
            }
            assert(id.subrange(0, 6) =~= "space:"@);
            assert(id.skip(6) =~= sp);
        },
    }
    assert(space_part_spec(id) == Some(sp));
    if managed {
        assert(sp[0] == 'm');
        if has_prefix(sp, "id:"@) {
            assert(sp.subrange(0, 3)[0] == sp[0]);
            assert("id:"@[0] == 'i');
        }
        assert(sp.subrange(0, 8) =~= "managed:"@);
        assert(sp.skip(8) =~= digits);
    } else {
        assert(sp.subrange(0, 3) =~= "id:"@);
        assert(sp.skip(3) =~= digits);
    }
    assert(space_number_spec(sp) == Some(digits));
    lemma_all_digits_at(digits, 0, digits.len() as int, 0);
    assert(digits[0] != '+');
}

/// How a space names itself: by its 64-bit id ("id:N"), else by its managed
/// space number ("managed:N"), else by its UUID ("uuid:U").
pub open spec fn space_identifier_spec(id64: Option<int>, managed: Option<int>, uuid: Option<Seq<char>>) -> Option<
    Seq<char>,
> {
    match id64 {
        Some(n) => Some("id:"@ + decimal(n as nat)),
        None => match managed {
            Some(n) => Some("managed:"@ + decimal(n as nat)),
            None => match uuid {
                Some(u) => Some("uuid:"@ + u),
                None => None,
            },
        },
    }
}

/// The identifier of a space from what the system reports of it.
pub fn space_identifier(id64: Option<u64>, managed_space_id: Option<u64>, uuid: Option<String>) -> (r: Option<
    String,
>)
    ensures
        opt_text(r) == space_identifier_spec(opt_u64(id64), opt_u64(managed_space_id), opt_text(uuid)),
{
    match id64 {
        Some(n) => {
            let mut out = string_from("id:");
            push_decimal(&mut out, n);
            Some(out)
        },
        None => match managed_space_id {
            Some(n) => {
                let mut out = string_from("managed:");
                push_decimal(&mut out, n);
                Some(out)
            },
            None => match uuid {
                Some(u) => {
                    let mut out = string_from("uuid:");
                    push_str(&mut out, u.as_str());
                    Some(out)
                },
                None => None,
            },
        },
    }
}

/// An optional text as plain value.
pub open spec fn opt_text(o: Option<String>) -> Option<Seq<char>> {
    match o {
        Some(s) => Some(s@),
        None => None,
    }
}

/// An optional number as plain value.
pub open spec fn opt_u64(o: Option<u64>) -> Option<int> {
    match o {
        Some(x) => Some(x as int),
        None => None,
    }
}

/// The name of a display: its UUID when the system gives one, else
/// "display-id:N" from its display number.
pub open spec fn display_identifier_for_spec(uuid: Option<Seq<char>>, display_id: int) -> Seq<char> {
    match uuid {
        Some(u) => u,
        None => "display-id:"@ + decimal(display_id as nat),
    }
}

/// The name of a display.
pub fn display_identifier_for(uuid: Option<String>, display_id: u32) -> (r: String)
    ensures
        r@ == display_identifier_for_spec(opt_text(uuid), display_id as int),
{
    match uuid {
        Some(u) => u,
        None => {
            let mut out = string_from("display-id:");
            push_decimal(&mut out, display_id as u64);
            out
        },
    }
}

/// The position of the first desktop at or after `i` on the display named
/// `display`, the name compared without regard to ASCII case.
pub open spec fn first_on_display(desktops: Seq<ActiveDesktop>, display: Seq<char>, i: int) -> Option<int>
    decreases desktops.len() - i,
{
    if i < 0 || i >= desktops.len() {
        None
    } else if desktops[i].display_identifier matches Some(c) && eq_ignore_ascii_case_spec(c@, display) {
        Some(i)
    } else {
        first_on_display(desktops, display, i + 1)
    }
}

/// The desktop a screen shows: the first active desktop on the screen's
/// display, else the first active desktop, else none.
pub open spec fn desktop_for_display_spec(desktops: Seq<ActiveDesktop>, display: Option<Seq<char>>) -> Option<
    Seq<char>,
> {
    let found = match display {
        Some(d) => first_on_display(desktops, d, 0),
        None => None,
    };
    match found {
        Some(k) => Some(desktops[k].desktop_id@),
        None => if desktops.len() > 0 {
            Some(desktops[0].desktop_id@)
        } else {
            None
        },
    }
}

/// The desktop a screen of the display `display` shows.
pub fn desktop_id_for_display(desktops: &[ActiveDesktop], display: Option<&str>) -> (r: Option<String>)
    ensures
        opt_text(r) == desktop_for_display_spec(
            desktops@,
            match display {
                Some(d) => Some(d@),
                None => None,
            },
        ),
{
    if let Some(d) = display {
        let wanted = chars_of(d);
        let mut i: usize = 0;
        while i < desktops.len()
            invariant
                i <= desktops.len(),
                display == Some(d),
                wanted@ == d@,
                first_on_display(desktops@, d@, 0) == first_on_display(desktops@, d@, i as int),
            decreases desktops.len() - i,
        {
            if let Some(c) = &desktops[i].display_identifier {
                let have = chars_of(c.as_str());
                if eq_ignore_ascii_case(&have, &wanted) {
                    assert(first_on_display(desktops@, d@, i as int) == Some(i as int));
                    let id = desktops[i].desktop_id.clone();
                    assert(id@ == desktops@[i as int].desktop_id@);
                    return Some(id);
                }
            }
            i = i + 1;
        }
    }
    if desktops.len() > 0 {
        Some(desktops[0].desktop_id.clone())
    } else {
        None
    }
}

/// A desktop named from a space's UUID ("uuid:U") names no managed space
/// number, whatever the display, unless the UUID itself holds "/space:".
pub proof fn lemma_uuid_space_has_no_number(display: Option<Seq<char>>, u: Seq<char>)
    requires
        !seq_contains(u, "/space:"@),
    ensures
        managed_space_id_spec(desktop_id_for_space_spec(display, "uuid:"@ + u)) is None,
{
    let pre = "uuid:"@;
    let sp = pre + u;
    let id = desktop_id_for_space_spec(display, sp);
    let marker = "/space:"@;
    reveal_strlit("/space:");
    reveal_strlit("space:");
    reveal_strlit("display:");
    reveal_strlit("managed:");
    reveal_strlit("id:");
    reveal_strlit("uuid:");
    // An occurrence of the marker that starts in `sp` lies in `u`.
    assert forall|j: int| 0 <= j && j + 7 <= sp.len() implies !#[trigger] occurs_at(sp, marker, j) by {
        if occurs_at(sp, marker, j) {
            assert(sp.subrange(j, j + 7)[0] == sp[j]);
            if j < 5 {
                assert(sp[j] == pre[j]);
            } else {
                assert(sp.subrange(j, j + 7) =~= u.subrange(j - 5, j + 2));
                assert(occurs_at(u, marker, j - 5));
            }
        }
    }
    match display {
        Some(d) => {
            let t: int = 8 + d.len() as int;
            assert(id =~= "display:"@ + d + marker + sp);
            assert(id.subrange(t, t + 7) =~= marker);
            assert forall|j: int| t < j <= id.len() - marker.len() implies !#[trigger] occurs_at(
                id,
                marker,
                j,
            ) by {
                if occurs_at(id, marker, j) {
                    assert(id.subrange(j, j + 7)[0] == id[j]);
                    if j < t + 7 {
                        assert(id[j] == marker[j - t]);
                    } else {
                        assert(id.subrange(j, j + 7) =~= sp.subrange(j - t - 7, j - t));
                        assert(occurs_at(sp, marker, j - t - 7));
                    }
                }
            }
            lemma_rfind_from_last(id, marker, id.len() - marker.len(), t);
            assert(id.skip(t + 7) =~= sp);
        },
        None => {
            assert(id =~= "space:"@ + sp);
            lemma_rfind_from(id, marker, id.len() - marker.len());
            if let Some(j) = rfind_from(id, marker, id.len() - marker.len()) {
                assert(id.subrange(j, j + 7)[0] == id[j]);
                if j < 6 {
                    assert(id[j] == "space:"@[j]);
                } else {
                    assert(id.subrange(j, j + 7) =~= sp.subrange(j - 6, j + 1));
                    assert(occurs_at(sp, marker, j - 6));
                }
            }
            assert(id.subrange(0, 6) =~= "space:"@);
            assert(id.skip(6) =~= sp);
        },
    }
    assert(space_part_spec(id) == Some(sp));
    assert(sp[0] == 'u');
    if has_prefix(sp, "id:"@) {
        assert(sp.subrange(0, 3)[0] == sp[0]);
        assert("id:"@[0] == 'i');
    }
    if has_prefix(sp, "managed:"@) {
        assert(sp.subrange(0, 8)[0] == sp[0]);
        assert("managed:"@[0] == 'm');
    }
}

/// A desktop named from a space's 64-bit id or managed space number gives
/// that number back, whatever the display.
pub proof fn lemma_space_identifier_round_trip(
    display: Option<Seq<char>>,
    id64: Option<u64>,
    managed_space_id: Option<u64>,
    uuid: Option<Seq<char>>,
)
    requires
        id64 is Some || managed_space_id is Some,
    ensures
        ({
            let space = space_identifier_spec(opt_u64(id64), opt_u64(managed_space_id), uuid).unwrap();
            managed_space_id_spec(desktop_id_for_space_spec(display, space)) == Some(
                match id64 {
                    Some(n) => n as int,
                    None => managed_space_id.unwrap() as int,
                },
            )
        }),
{
    match id64 {
        Some(n) => lemma_managed_space_id_round_trip(display, n as nat, false),
        None => lemma_managed_space_id_round_trip(display, managed_space_id.unwrap() as nat, true),
    }
}

/// The desktops to use when the system names none: the default desktop.
pub fn fallback_desktops() -> (r: Vec<ActiveDesktop>)
    ensures
        r.len() == 1,
        r[0].display_identifier is None,
        r[0].desktop_id@ == default_desktop_id(),
{
    let mut r: Vec<ActiveDesktop> = Vec::new();
    r.push(ActiveDesktop { display_identifier: None, desktop_id: string_from("desktop:default") });
    r
}

/// What the system reports of one display: its identifier, when it has one;
/// the identifier of its current space when it reports one (`Some(None)`
/// when it reports a current space whose identifier cannot be read); and each
/// of its spaces, flagged when it is the current one, with its identifier if
/// it can be read.
pub struct DisplaySpaces {
    pub display_identifier: Option<String>,
    pub current_space: Option<Option<String>>,
    pub spaces: Vec<(bool, Option<String>)>,
}

/// A display's report as plain values.
pub open spec fn display_view(d: DisplaySpaces) -> (
    Option<Seq<char>>,
    Option<Option<Seq<char>>>,
    Seq<(bool, Option<Seq<char>>)>,
) {
    (
        opt_text(d.display_identifier),
        match d.current_space {
            Some(o) => Some(opt_text(o)),
            None => None,
        },
        d.spaces@.map_values(|sp: (bool, Option<String>)| (sp.0, opt_text(sp.1))),
    )
}

/// Display reports as plain values.
pub open spec fn displays_view(v: Seq<DisplaySpaces>) -> Seq<
    (Option<Seq<char>>, Option<Option<Seq<char>>>, Seq<(bool, Option<Seq<char>>)>),
> {
    v.map_values(|d: DisplaySpaces| display_view(d))
}

/// An active desktop as plain values: its display and its identifier.
pub open spec fn active_view(d: ActiveDesktop) -> (Option<Seq<char>>, Seq<char>) {
    (opt_text(d.display_identifier), d.desktop_id@)
}

/// Active desktops as plain values.
pub open spec fn actives_view(v: Seq<ActiveDesktop>) -> Seq<(Option<Seq<char>>, Seq<char>)> {
    v.map_values(|d: ActiveDesktop| active_view(d))
}

/// The desktops of the identified spaces of a display, in order: all of
/// them, or only those flagged current.
pub open spec fn space_desktops(
    display: Option<Seq<char>>,
    spaces: Seq<(bool, Option<Seq<char>>)>,
    only_current: bool,
) -> Seq<(Option<Seq<char>>, Seq<char>)>
    decreases spaces.len(),
{
    if spaces.len() == 0 {
        seq![]
    } else {
        let prev = space_desktops(display, spaces.drop_last(), only_current);
        let last = spaces.last();
        if (!only_current || last.0) && last.1 is Some {
            prev.push((display, desktop_id_for_space_spec(display, last.1->0)))
        } else {
            prev
        }
    }
}

/// The desktop a display shows: that of the current space it reports, if
/// it reports one (none when that space has no identifier); else those of the
/// spaces flagged current.
pub open spec fn display_current_desktops(
    d: (Option<Seq<char>>, Option<Option<Seq<char>>>, Seq<(bool, Option<Seq<char>>)>),
) -> Seq<(Option<Seq<char>>, Seq<char>)> {
    match d.1 {
        Some(Some(space)) => seq![(d.0, desktop_id_for_space_spec(d.0, space))],
        Some(None) => seq![],
        None => space_desktops(d.0, d.2, true),
    }
}

/// The desktops found on the displays, display by display: the current ones
/// or all of them.
pub open spec fn found_desktops(
    ds: Seq<(Option<Seq<char>>, Option<Option<Seq<char>>>, Seq<(bool, Option<Seq<char>>)>)>,
    only_current: bool,
) -> Seq<(Option<Seq<char>>, Seq<char>)>
    decreases ds.len(),
{
    if ds.len() == 0 {
        seq![]
    } else {
        found_desktops(ds.drop_last(), only_current) + if only_current {
            display_current_desktops(ds.last())
        } else {
            space_desktops(ds.last().0, ds.last().2, false)
        }
    }
}

/// The desktops shown now: those found, or the default desktop when none is.
pub open spec fn current_desktops_spec(
    ds: Seq<(Option<Seq<char>>, Option<Option<Seq<char>>>, Seq<(bool, Option<Seq<char>>)>)>,
) -> Seq<(Option<Seq<char>>, Seq<char>)> {
    if found_desktops(ds, true).len() == 0 {
        seq![(None, default_desktop_id())]
    } else {
        found_desktops(ds, true)
    }
}

/// Every desktop: those of every identified space, or the default desktop
/// when there is none.
pub open spec fn all_desktops_spec(
    ds: Seq<(Option<Seq<char>>, Option<Option<Seq<char>>>, Seq<(bool, Option<Seq<char>>)>)>,
) -> Seq<(Option<Seq<char>>, Seq<char>)> {
    if found_desktops(ds, false).len() == 0 {
        seq![(None, default_desktop_id())]
    } else {
        found_desktops(ds, false)
    }
}

/// A copy of an optional string.
fn copy_opt_text(o: &Option<String>) -> (r: Option<String>)
    ensures
        opt_text(r) == opt_text(*o),
{
    match o {
        Some(s) => Some(s.clone()),
        None => None,
    }
}

/// Appends the desktop of `space` on `display` to `out`.
fn push_space_desktop(out: &mut Vec<ActiveDesktop>, display: &Option<String>, space: &String)
    ensures
        actives_view(final(out)@) == actives_view(old(out)@).push(
            (opt_text(*display), desktop_id_for_space_spec(opt_text(*display), space@)),
        ),
{
    let id = match display {
        Some(d) => desktop_id_for_space(Some(d.as_str()), space.as_str()),
        None => desktop_id_for_space(None, space.as_str()),
    };
    let ghost before = actives_view(out@);
    out.push(ActiveDesktop { display_identifier: copy_opt_text(display), desktop_id: id });
    assert(actives_view(out@) =~= before.push(
        (opt_text(*display), desktop_id_for_space_spec(opt_text(*display), space@)),
    ));
}

/// Appends the desktops of the identified spaces of a display: all of them,
/// or only those flagged current.
fn push_space_desktops(out: &mut Vec<ActiveDesktop>, display: &DisplaySpaces, only_current: bool)
    ensures
        actives_view(final(out)@) == actives_view(old(out)@) + space_desktops(
            display_view(*display).0,
            display_view(*display).2,
            only_current,
        ),
{
    let ghost dv = display_view(*display);
    let ghost before = actives_view(out@);
    let mut i: usize = 0;
    assert(dv.2.take(0) =~= seq![]);
    assert(before + space_desktops(dv.0, dv.2.take(0), only_current) =~= before);
    while i < display.spaces.len()
        invariant
            i <= display.spaces.len(),
            dv == display_view(*display),
            actives_view(out@) == before + space_desktops(dv.0, dv.2.take(i as int), only_current),
        decreases display.spaces.len() - i,
    {
        assert(dv.2.take(i + 1).drop_last() =~= dv.2.take(i as int));
        assert(dv.2.take(i + 1).last() == (display.spaces@[i as int].0, opt_text(display.spaces@[i as int].1)));
        let ghost mid = actives_view(out@);
        let flagged = display.spaces[i].0;
        if !only_current || flagged {
            match &display.spaces[i].1 {
                Some(space) => {
                    push_space_desktop(out, &display.display_identifier, space);
                    assert(actives_view(out@) =~= before + space_desktops(dv.0, dv.2.take(i + 1), only_current));
                },
                None => {
                    assert(space_desktops(dv.0, dv.2.take(i + 1), only_current) == space_desktops(dv.0, dv.2.take(i as int), only_current));
                },
            }
        } else {
            assert(space_desktops(dv.0, dv.2.take(i + 1), only_current) == space_desktops(dv.0, dv.2.take(i as int), only_current));
        }
        i = i + 1;
    }
    assert(dv.2.take(i as int) =~= dv.2);
}

/// The desktops of the displays, display by display: the current ones or
/// all of them.
fn collect_desktops(displays: &[DisplaySpaces], only_current: bool) -> (r: Vec<ActiveDesktop>)
    ensures
        actives_view(r@) == found_desktops(displays_view(displays@), only_current),
{
    let ghost ds = displays_view(displays@);
    let mut out: Vec<ActiveDesktop> = Vec::new();
    let mut i: usize = 0;
    assert(ds.take(0) =~= seq![]);
    assert(actives_view(out@) =~= seq![]);
    while i < displays.len()
        invariant
            i <= displays.len(),
            ds == displays_view(displays@),
            actives_view(out@) == found_desktops(ds.take(i as int), only_current),
        decreases displays.len() - i,
    {
        let display = &displays[i];
        assert(ds.take(i + 1).drop_last() =~= ds.take(i as int));
        assert(ds.take(i + 1).last() == display_view(*display));
        let ghost before = actives_view(out@);
        if only_current {
            match &display.current_space {
                Some(Some(space)) => {
                    push_space_desktop(&mut out, &display.display_identifier, space);
                    assert(display_current_desktops(display_view(*display)) =~= seq![
                        (display_view(*display).0, desktop_id_for_space_spec(display_view(*display).0, space@)),
                    ]);
                    assert(actives_view(out@) =~= before + display_current_desktops(display_view(*display)));
                },
                Some(None) => {
                    assert(actives_view(out@) =~= before + display_current_desktops(display_view(*display)));
                },
                None => {
                    push_space_desktops(&mut out, display, true);
                },
            }
        } else {
            push_space_desktops(&mut out, display, false);
        }
        i = i + 1;
    }
    assert(ds.take(i as int) =~= ds);
    out
}

/// The desktops shown now, from what the system reports of its displays:
/// on each display, that of the current space it reports (none when that
/// space has no identifier), else those of the spaces flagged current; the
/// default desktop when there is none.
pub fn current_desktops_from(displays: &[DisplaySpaces]) -> (r: Vec<ActiveDesktop>)
    ensures
        r@.len() >= 1,
        actives_view(r@) == current_desktops_spec(displays_view(displays@)),
{
    let found = collect_desktops(displays, true);
    if found.len() == 0 {
        let r = fallback_desktops();
        assert(actives_view(r@) =~= seq![(None::<Seq<char>>, default_desktop_id())]);
        r
    } else {
        found
    }
}

/// Every desktop, from what the system reports of its displays: that of
/// each identified space, display by display; the default desktop when there
/// is none.
pub fn all_desktops_from(displays: &[DisplaySpaces]) -> (r: Vec<ActiveDesktop>)
    ensures
        r@.len() >= 1,
        actives_view(r@) == all_desktops_spec(displays_view(displays@)),
{
    let found = collect_desktops(displays, false);
    if found.len() == 0 {
        let r = fallback_desktops();
        assert(actives_view(r@) =~= seq![(None::<Seq<char>>, default_desktop_id())]);
        r
    } else {
        found
    }
}

/// Strings as plain values.
pub open spec fn strings_view(v: Seq<String>) -> Seq<Seq<char>> {
    v.map_values(|s: String| s@)
}

/// The identifiers of the active desktops, each once; the default desktop when
/// there is none.
pub open spec fn desktop_id_set_spec(desktops: Seq<ActiveDesktop>) -> Seq<Seq<char>> {
    if desktops.len() == 0 {
        seq![default_desktop_id()]
    } else {
        dedup_seq(desktops.map_values(|d: ActiveDesktop| d.desktop_id@))
    }
}

/// Whether the list holds the string.
pub fn contains_string(ids: &[String], id: &String) -> (r: bool)
    ensures
        r == strings_view(ids@).contains(id@),
{
    let ghost v = strings_view(ids@);
    let mut i: usize = 0;
    while i < ids.len()
        invariant
            i <= ids.len(),
            v == strings_view(ids@),
            forall|k: int| 0 <= k < i ==> v[k] != id@,
        decreases ids.len() - i,
    {
        if ids[i] == *id {
            assert(v[i as int] == id@);
            return true;
        }
        i = i + 1;
    }
    false
}

/// Adds an identifier to a set of identifiers.
pub fn insert_desktop_id(ids: &mut Vec<String>, id: String)
    ensures
        strings_view(final(ids)@) == push_unique(strings_view(old(ids)@), id@),
{
    if !contains_string(ids, &id) {
        let ghost before = strings_view(ids@);
        ids.push(id);
        assert(strings_view(ids@) =~= before.push(id@));
    }
}

/// The set of active desktop identifiers, each once; the default desktop when
/// the system names none.
pub fn desktop_id_set(desktops: &[ActiveDesktop]) -> (r: Vec<String>)
    ensures
        strings_view(r@) == desktop_id_set_spec(desktops@),
{
    let ghost all = desktops@.map_values(|d: ActiveDesktop| d.desktop_id@);
    let mut ids: Vec<String> = Vec::new();
    let mut i: usize = 0;
    assert(all.take(0) =~= seq![]);
    while i < desktops.len()
        invariant
            i <= desktops.len(),
            all == desktops@.map_values(|d: ActiveDesktop| d.desktop_id@),
            strings_view(ids@) == dedup_seq(all.take(i as int)),
        decreases desktops.len() - i,
    {
        assert(all[i as int] == desktops@[i as int].desktop_id@);
        insert_desktop_id(&mut ids, desktops[i].desktop_id.clone());
        i = i + 1;
        assert(all.take(i as int).drop_last() =~= all.take(i - 1));
    }
    assert(all.take(i as int) =~= all);
    if ids.len() == 0 {
        ids.push(string_from("desktop:default"));
        assert(desktops@.len() == 0) by {
            if desktops@.len() > 0 {
                lemma_dedup_seq(all);
                assert(all.contains(all[0]));
            }
        }
        assert(strings_view(ids@) =~= seq![default_desktop_id()]);
    }
    ids
}

/// `dedup_seq` keeps each element once, and keeps exactly the elements.
pub proof fn lemma_dedup_seq<A>(xs: Seq<A>)
    ensures
        dedup_seq(xs).no_duplicates(),
        forall|x: A| dedup_seq(xs).contains(x) <==> xs.contains(x),
    decreases xs.len(),
{
    if xs.len() > 0 {
        let p = xs.drop_last();
        lemma_dedup_seq(p);
        let d = dedup_seq(p);
        assert forall|x: A| dedup_seq(xs).contains(x) <==> xs.contains(x) by {
            if xs.contains(x) && x != xs.last() {
                let k = choose|k: int| 0 <= k < xs.len() && xs[k] == x;
                assert(p[k] == x);
            }
            if p.contains(x) {
                let k = choose|k: int| 0 <= k < p.len() && p[k] == x;
                assert(xs[k] == x);
            }
            if !d.contains(xs.last()) {
                assert(d.push(xs.last())[d.len() as int] == xs.last());
                if d.push(xs.last()).contains(x) && x != xs.last() {
                    let k = choose|k: int| 0 <= k < d.push(xs.last()).len() && d.push(xs.last())[k] == x;
                    assert(d[k] == x);
                }
                if d.contains(x) {
                    let k = choose|k: int| 0 <= k < d.len() && d[k] == x;
                    assert(d.push(xs.last())[k] == x);
                }
            }
            assert(xs[xs.len() - 1] == xs.last());
        }
        if !d.contains(xs.last()) {
            let e = d.push(xs.last());
            assert forall|i: int, j: int| 0 <= i < e.len() && 0 <= j < e.len() && i != j implies e[i]
                != e[j] by {
                if i < d.len() && j < d.len() {
                } else if i == d.len() {
                    assert(d[j] == e[j]);
                } else {
                    assert(d[i] == e[i]);
                }
            }
        }
    }
}

/// The desktop a note is on: its saved one, or the default desktop for a note
/// saved without one.
pub open spec fn note_desktop_id_spec(desktop_id: Seq<char>) -> Seq<char> {
    if desktop_id.len() == 0 {
        default_desktop_id()
    } else {
        desktop_id
    }
}

/// The desktop a note is on: its saved one, or the default desktop.
pub fn note_desktop_id<'a>(desktop_id: &'a str) -> (r: &'a str)
    ensures
        r@ == note_desktop_id_spec(desktop_id@),
{
    if desktop_id.is_empty() {
        "desktop:default"
    } else {
        desktop_id
    }
}

/// What the selection logic reads of a note: its id and its saved desktop.
pub struct NoteInfo {
    pub id: u64,
    pub desktop_id: String,
}

/// What the selection logic reads of the application: the notes in order,
/// the active desktops and the note last used.
pub struct DesktopState {
    pub notes: Vec<NoteInfo>,
    pub active_desktop_ids: Vec<String>,
    pub active_note_id: Option<u64>,
}

/// Notes as plain values.
pub open spec fn notes_view(v: Seq<NoteInfo>) -> Seq<(int, Seq<char>)> {
    v.map_values(|n: NoteInfo| (n.id as int, n.desktop_id@))
}

/// An optional id as plain value.
pub open spec fn opt_id(o: Option<u64>) -> Option<int> {
    match o {
        Some(x) => Some(x as int),
        None => None,
    }
}

/// A note on `desktop` is shown: every note when no desktop is active, else
/// those on an active desktop.
pub open spec fn on_active_spec(active: Seq<Seq<char>>, desktop: Seq<char>) -> bool {
    active.len() == 0 || active.contains(note_desktop_id_spec(desktop))
}

/// The id of the last shown note.
pub open spec fn last_visible_spec(notes: Seq<(int, Seq<char>)>, active: Seq<Seq<char>>) -> Option<int>
    decreases notes.len(),
{
    if notes.len() == 0 {
        None
    } else if on_active_spec(active, notes.last().1) {
        Some(notes.last().0)
    } else {
        last_visible_spec(notes.drop_last(), active)
    }
}

/// The position of the first note with this id, from position `i` on.
pub open spec fn first_index_from(notes: Seq<(int, Seq<char>)>, id: int, i: int) -> Option<int>
    decreases notes.len() - i,
{
    if i < 0 || i >= notes.len() {
        None
    } else if notes[i].0 == id {
        Some(i)
    } else {
        first_index_from(notes, id, i + 1)
    }
}

/// The position of the first shown note with this id, from position `i` on.
pub open spec fn first_visible_index_from(
    notes: Seq<(int, Seq<char>)>,
    active: Seq<Seq<char>>,
    id: int,
    i: int,
) -> Option<int>
    decreases notes.len() - i,
{
    if i < 0 || i >= notes.len() {
        None
    } else if notes[i].0 == id && on_active_spec(active, notes[i].1) {
        Some(i)
    } else {
        first_visible_index_from(notes, active, id, i + 1)
    }
}

/// The note "Move Selected Note to This Desktop" moves: the note last used,
/// even when it is on another desktop; else the last shown note; else the
/// last note.
pub open spec fn selected_for_move_spec(
    notes: Seq<(int, Seq<char>)>,
    active: Seq<Seq<char>>,
    active_note: Option<int>,
) -> Option<int> {
    match active_note {
        Some(id) if first_index_from(notes, id, 0) is Some => Some(id),
        _ => match last_visible_spec(notes, active) {
            Some(x) => Some(x),
            None => if notes.len() == 0 {
                None
            } else {
                Some(notes.last().0)
            },
        },
    }
}

/// The note a style choice applies to: the note last used when it is shown,
/// else the last shown note.
pub open spec fn style_target_spec(
    notes: Seq<(int, Seq<char>)>,
    active: Seq<Seq<char>>,
    active_note: Option<int>,
) -> Option<int> {
    match active_note {
        Some(id) if first_visible_index_from(notes, active, id, 0) is Some => Some(id),
        _ => last_visible_spec(notes, active),
    }
}

/// The note last used after the shown desktops change: kept while it exists,
/// else the last shown note.
pub open spec fn refreshed_active_spec(
    notes: Seq<(int, Seq<char>)>,
    active: Seq<Seq<char>>,
    active_note: Option<int>,
) -> Option<int> {
    match active_note {
        Some(id) if first_index_from(notes, id, 0) is Some => Some(id),
        _ => last_visible_spec(notes, active),
    }
}

/// Whether a note is shown with the active desktops.
pub fn note_is_on_active_desktop(state: &DesktopState, note: &NoteInfo) -> (r: bool)
    ensures
        r == on_active_spec(strings_view(state.active_desktop_ids@), note.desktop_id@),
{
    if state.active_desktop_ids.len() == 0 {
        return true;
    }
    let desktop = string_from(note_desktop_id(note.desktop_id.as_str()));
    contains_string(&state.active_desktop_ids, &desktop)
}

/// The id of the last shown note.
pub fn last_visible_note_id(state: &DesktopState) -> (r: Option<u64>)
    ensures
        opt_id(r) == last_visible_spec(notes_view(state.notes@), strings_view(state.active_desktop_ids@)),
{
    let ghost nv = notes_view(state.notes@);
    let ghost av = strings_view(state.active_desktop_ids@);
    let mut i = state.notes.len();
    assert(nv.take(i as int) =~= nv);
    while i > 0
        invariant
            i <= state.notes.len(),
            nv == notes_view(state.notes@),
            av == strings_view(state.active_desktop_ids@),
            last_visible_spec(nv, av) == last_visible_spec(nv.take(i as int), av),
        decreases i,
    {
        let note = &state.notes[i - 1];
        assert(nv.take(i as int).last() == (note.id as int, note.desktop_id@));
        if note_is_on_active_desktop(state, note) {
            return Some(note.id);
        }
        assert(nv.take(i as int).drop_last() =~= nv.take(i - 1));
        i = i - 1;
    }
    None
}

/// The position of the first note with this id.
pub fn note_index(state: &DesktopState, id: u64) -> (r: Option<usize>)
    ensures
        opt_index(r) == first_index_from(notes_view(state.notes@), id as int, 0),
{
    let ghost nv = notes_view(state.notes@);
    let mut i: usize = 0;
    while i < state.notes.len()
        invariant
            i <= state.notes.len(),
            nv == notes_view(state.notes@),
            first_index_from(nv, id as int, 0) == first_index_from(nv, id as int, i as int),
        decreases state.notes.len() - i,
    {
        assert(nv[i as int].0 == state.notes@[i as int].id);
        if state.notes[i].id == id {
            return Some(i);
        }
        i = i + 1;
    }
    None
}

/// An optional position as plain value.
pub open spec fn opt_index(o: Option<usize>) -> Option<int> {
    match o {
        Some(x) => Some(x as int),
        None => None,
    }
}

/// The position of the first shown note with this id.
pub fn visible_note_index(state: &DesktopState, id: u64) -> (r: Option<usize>)
    ensures
        opt_index(r) == first_visible_index_from(
            notes_view(state.notes@),
            strings_view(state.active_desktop_ids@),
            id as int,
            0,
        ),
{
    let ghost nv = notes_view(state.notes@);
    let ghost av = strings_view(state.active_desktop_ids@);
    let mut i: usize = 0;
    while i < state.notes.len()
        invariant
            i <= state.notes.len(),
            nv == notes_view(state.notes@),
            av == strings_view(state.active_desktop_ids@),
            first_visible_index_from(nv, av, id as int, 0) == first_visible_index_from(
                nv,
                av,
                id as int,
                i as int,
            ),
        decreases state.notes.len() - i,
    {
        let note = &state.notes[i];
        assert(nv[i as int] == (note.id as int, note.desktop_id@));
        if note.id == id && note_is_on_active_desktop(state, note) {
            return Some(i);
        }
        i = i + 1;
    }
    None
}

/// The note "Move Selected Note to This Desktop" moves.
pub fn selected_note_id_for_move(state: &DesktopState) -> (r: Option<u64>)
    ensures
        opt_id(r) == selected_for_move_spec(
            notes_view(state.notes@),
            strings_view(state.active_desktop_ids@),
            opt_id(state.active_note_id),
        ),
{
    if let Some(id) = state.active_note_id {
        if note_index(state, id).is_some() {
            return Some(id);
        }
    }
    match last_visible_note_id(state) {
        Some(id) => Some(id),
        None => {
            let n = state.notes.len();
            if n == 0 {
                None
            } else {
                Some(state.notes[n - 1].id)
            }
        },
    }
}

/// The note a style choice applies to.
pub fn style_target_note_id(state: &DesktopState) -> (r: Option<u64>)
    ensures
        opt_id(r) == style_target_spec(
            notes_view(state.notes@),
            strings_view(state.active_desktop_ids@),
            opt_id(state.active_note_id),
        ),
{
    if let Some(id) = state.active_note_id {
        if visible_note_index(state, id).is_some() {
            return Some(id);
        }
    }
    last_visible_note_id(state)
}

/// The note last used after the shown desktops change.
pub fn refreshed_active_note_id(state: &DesktopState) -> (r: Option<u64>)
    ensures
        opt_id(r) == refreshed_active_spec(
            notes_view(state.notes@),
            strings_view(state.active_desktop_ids@),
            opt_id(state.active_note_id),
        ),
{
    if let Some(id) = state.active_note_id {
        if note_index(state, id).is_some() {
            return Some(id);
        }
    }
    last_visible_note_id(state)
}

/// The position of the note whose style the menus show: the note last used,
/// when it is shown; `None` means the default style.
pub fn current_style_note_index(state: &DesktopState) -> (r: Option<usize>)
    ensures
        opt_index(r) == match state.active_note_id {
            Some(id) => first_visible_index_from(
                notes_view(state.notes@),
                strings_view(state.active_desktop_ids@),
                id as int,
                0,
            ),
            None => None,
        },
{
    match state.active_note_id {
        Some(id) => visible_note_index(state, id),
        None => None,
    }
}

/// The positions of the notes shown with the active desktops, in order.
pub open spec fn shown_positions(notes: Seq<(int, Seq<char>)>, active: Seq<Seq<char>>) -> Seq<int>
    decreases notes.len(),
{
    if notes.len() == 0 {
        seq![]
    } else {
        let prev = shown_positions(notes.drop_last(), active);
        if on_active_spec(active, notes.last().1) {
            prev.push(notes.len() - 1)
        } else {
            prev
        }
    }
}

/// The desktops shown have changed to `active_desktops`: they become the
/// active desktops, the note last used is kept while it exists (else the last
/// shown note is), and the positions of the notes to show are returned, in
/// order.
pub fn active_space_changed(state: &mut DesktopState, active_desktops: &[ActiveDesktop]) -> (shown: Vec<usize>)
    ensures
        notes_view(final(state).notes@) == notes_view(old(state).notes@),
        strings_view(final(state).active_desktop_ids@) == desktop_id_set_spec(active_desktops@),
        opt_id(final(state).active_note_id) == refreshed_active_spec(
            notes_view(old(state).notes@),
            desktop_id_set_spec(active_desktops@),
            opt_id(old(state).active_note_id),
        ),
        shown@.map_values(|k: usize| k as int) == shown_positions(
            notes_view(old(state).notes@),
            desktop_id_set_spec(active_desktops@),
        ),
{
    state.active_desktop_ids = desktop_id_set(active_desktops);
    let ghost nv = notes_view(state.notes@);
    let ghost av = strings_view(state.active_desktop_ids@);
    let mut shown: Vec<usize> = Vec::new();
    let mut i: usize = 0;
    assert(nv.take(0) =~= seq![]);
    while i < state.notes.len()
        invariant
            i <= state.notes.len(),
            nv == notes_view(state.notes@),
            av == strings_view(state.active_desktop_ids@),
            shown@.map_values(|k: usize| k as int) == shown_positions(nv.take(i as int), av),
        decreases state.notes.len() - i,
    {
        assert(nv.take(i + 1).drop_last() =~= nv.take(i as int));
        assert(nv.take(i + 1).last() == nv[i as int]);
        if note_is_on_active_desktop(state, &state.notes[i]) {
            let ghost before = shown@;
            shown.push(i);
            assert(shown@.map_values(|k: usize| k as int) =~= before.map_values(|k: usize| k as int).push(
                i as int,
            ));
        }
        i = i + 1;
    }
    assert(nv.take(i as int) =~= nv);
    state.active_note_id = refreshed_active_note_id(state);
    shown
}

/// The application state as plain values.
pub open spec fn state_view(st: DesktopState) -> (Seq<(int, Seq<char>)>, Seq<Seq<char>>, Option<int>) {
    (notes_view(st.notes@), strings_view(st.active_desktop_ids@), opt_id(st.active_note_id))
}

/// Moves the selected note to the desktop in `target_desktop_id`: the note
/// is now on that desktop, the target desktop becomes active and the note
/// becomes the note last used. Returns the note's position, for its frame to
/// be set; `None`, with nothing changed, when there is no note.
pub fn move_active_note_to_current_desktop(state: &mut DesktopState, target_desktop_id: &str) -> (r:
    Option<usize>)
    ensures
        ({
            let (notes, active, active_note) = state_view(*old(state));
            match selected_for_move_spec(notes, active, active_note) {
                Some(id) => match first_index_from(notes, id, 0) {
                    Some(k) => {
                        &&& r == Some(k as usize)
                        &&& notes_view(final(state).notes@) == notes.update(k, (id, target_desktop_id@))
                        &&& strings_view(final(state).active_desktop_ids@) == push_unique(
                            active,
                            target_desktop_id@,
                        )
                        &&& opt_id(final(state).active_note_id) == Some(id)
                    },
                    None => r is None && state_view(*final(state)) == state_view(*old(state)),
                },
                None => r is None && state_view(*final(state)) == state_view(*old(state)),
            }
        }),
{
    let note_id = match selected_note_id_for_move(state) {
        Some(id) => id,
        None => return None,
    };
    let index = match note_index(state, note_id) {
        Some(i) => i,
        None => return None,
    };
    proof {
        lemma_first_index_from(notes_view(state.notes@), note_id as int, 0);
    }
    let ghost before = notes_view(state.notes@);
    insert_desktop_id(&mut state.active_desktop_ids, string_from(target_desktop_id));
    state.notes.set(index, NoteInfo { id: note_id, desktop_id: string_from(target_desktop_id) });
    assert(notes_view(state.notes@) =~= before.update(index as int, (note_id as int, target_desktop_id@)));
    state.active_note_id = Some(note_id);
    Some(index)
}

/// The notes without those with this id.
pub open spec fn without_note(notes: Seq<(int, Seq<char>)>, id: int) -> Seq<(int, Seq<char>)>
    decreases notes.len(),
{
    if notes.len() == 0 {
        seq![]
    } else if notes.last().0 == id {
        without_note(notes.drop_last(), id)
    } else {
        without_note(notes.drop_last(), id).push(notes.last())
    }
}

/// A note's window closed: unless the application closed it itself (while
/// switching desktops or quitting), the note is deleted and, when it was the
/// note last used, the last shown note takes its place. Returns whether the
/// note was deleted.
pub fn forget_closed_note(state: &mut DesktopState, note_id: u64, internal_close: bool) -> (deleted:
    bool)
    ensures
        deleted == !internal_close,
        strings_view(final(state).active_desktop_ids@) == strings_view(old(state).active_desktop_ids@),
        internal_close ==> state_view(*final(state)) == state_view(*old(state)),
        !internal_close ==> notes_view(final(state).notes@) == without_note(
            notes_view(old(state).notes@),
            note_id as int,
        ),
        !internal_close ==> opt_id(final(state).active_note_id) == if old(state).active_note_id == Some(
            note_id,
        ) {
            last_visible_spec(
                without_note(notes_view(old(state).notes@), note_id as int),
                strings_view(old(state).active_desktop_ids@),
            )
        } else {
            opt_id(old(state).active_note_id)
        },
{
    if internal_close {
        return false;
    }
    let ghost nv = notes_view(state.notes@);
    let mut kept: Vec<NoteInfo> = Vec::new();
    let mut i: usize = 0;
    assert(nv.take(0) =~= seq![]);
    while i < state.notes.len()
        invariant
            i <= state.notes.len(),
            nv == notes_view(state.notes@),
            notes_view(kept@) == without_note(nv.take(i as int), note_id as int),
        decreases state.notes.len() - i,
    {
        let note = &state.notes[i];
        assert(nv[i as int] == (note.id as int, note.desktop_id@));
        assert(nv.take(i + 1).drop_last() =~= nv.take(i as int));
        if note.id != note_id {
            let ghost before = notes_view(kept@);
            kept.push(NoteInfo { id: note.id, desktop_id: note.desktop_id.clone() });
            assert(notes_view(kept@) =~= before.push((note.id as int, note.desktop_id@)));
        }
        i = i + 1;
    }
    assert(nv.take(i as int) =~= nv);
    state.notes = kept;
    if state.active_note_id == Some(note_id) {
        state.active_note_id = last_visible_note_id(state);
    }
    true
}

/// Number of the notes saved on this desktop.
pub open spec fn count_on_desktop(notes: Seq<(int, Seq<char>)>, desktop: Seq<char>) -> int
    decreases notes.len(),
{
    if notes.len() == 0 {
        0
    } else {
        count_on_desktop(notes.drop_last(), desktop) + if notes.last().1 == desktop {
            1int
        } else {
            0int
        }
    }
}

/// Number of the notes saved on this desktop.
pub fn desktop_note_count(state: &DesktopState, desktop_id: &str) -> (r: usize)
    ensures
        r == count_on_desktop(notes_view(state.notes@), desktop_id@),
{
    let ghost nv = notes_view(state.notes@);
    let target = string_from(desktop_id);
    let mut count: usize = 0;
    let mut i: usize = 0;
    assert(nv.take(0) =~= seq![]);
    while i < state.notes.len()
        invariant
            i <= state.notes.len(),
            nv == notes_view(state.notes@),
            target@ == desktop_id@,
            count == count_on_desktop(nv.take(i as int), desktop_id@),
            count <= i,
        decreases state.notes.len() - i,
    {
        assert(nv[i as int] == (state.notes@[i as int].id as int, state.notes@[i as int].desktop_id@));
        assert(nv.take(i + 1).drop_last() =~= nv.take(i as int));
        if state.notes[i].desktop_id == target {
            count = count + 1;
        }
        i = i + 1;
    }
    assert(nv.take(i as int) =~= nv);
    count
}

/// The place of a new note in the cascade of notes on its desktop: the
/// number of notes already there, modulo 8.
pub fn note_cascade_slot(state: &DesktopState, desktop_id: &str) -> (r: usize)
    ensures
        r == count_on_desktop(notes_view(state.notes@), desktop_id@) % 8,
        r < 8,
{
    desktop_note_count(state, desktop_id) % 8
}

/// A note saved without a desktop, or on the default one, is to be assigned
/// to a real desktop.
pub fn needs_desktop_assignment(desktop_id: &str) -> (r: bool)
    ensures
        r == (desktop_id@.len() == 0 || desktop_id@ == default_desktop_id()),
{
    if desktop_id.is_empty() {
        return true;
    }
    let id = string_from(desktop_id);
    let default = string_from("desktop:default");
    id == default
}

/// A note saved on a desktop of one display lies on another display: both
/// desktops name their display, and the names differ (ignoring ASCII case).
pub fn display_changed(saved_desktop_id: &str, frame_desktop_id: &str) -> (r: bool)
    ensures
        r == match (display_identifier_spec(saved_desktop_id@), display_identifier_spec(
            frame_desktop_id@,
        )) {
            (Some(a), Some(b)) => !eq_ignore_ascii_case_spec(a, b),
            _ => false,
        },
{
    match (desktop_display_identifier(saved_desktop_id), desktop_display_identifier(frame_desktop_id)) {
        (Some(saved), Some(frame)) => {
            let a = chars_of(saved.as_str());
            let b = chars_of(frame.as_str());
            !eq_ignore_ascii_case(&a, &b)
        },
        _ => false,
    }
}

/// The display part of two desktop identifiers differs, ASCII case aside.
pub open spec fn display_changed_spec(saved: Seq<char>, frame: Seq<char>) -> bool {
    match (display_identifier_spec(saved), display_identifier_spec(frame)) {
        (Some(a), Some(b)) => !eq_ignore_ascii_case_spec(a, b),
        _ => false,
    }
}

/// The desktop a saved note is moved to when the notes are loaded: a note
/// with no desktop, or the default one, goes to the desktop under its frame,
/// else to `fallback`; a note whose frame now lies on another display goes to
/// the desktop under its frame; any other note stays (`None`).
pub open spec fn reassigned_desktop_spec(saved: Seq<char>, frame: Option<Seq<char>>, fallback: Seq<char>) -> Option<
    Seq<char>,
> {
    if saved.len() == 0 || saved == default_desktop_id() {
        Some(
            match frame {
                Some(f) => f,
                None => fallback,
            },
        )
    } else {
        match frame {
            Some(f) => if display_changed_spec(saved, f) {
                Some(f)
            } else {
                None
            },
            None => None,
        }
    }
}

/// The desktop a saved note is moved to when the notes are loaded, given
/// the desktop under its frame; `None` when it stays.
pub fn reassigned_desktop_id(saved: &str, frame_desktop_id: Option<String>, fallback: &str) -> (r: Option<String>)
    ensures
        opt_text(r) == reassigned_desktop_spec(saved@, opt_text(frame_desktop_id), fallback@),
{
    if needs_desktop_assignment(saved) {
        match frame_desktop_id {
            Some(f) => Some(f),
            None => Some(string_from(fallback)),
        }
    } else {
        match frame_desktop_id {
            Some(f) => if display_changed(saved, f.as_str()) {
                Some(f)
            } else {
                None
            },
            None => None,
        }
    }
}

/// A window is on another desktop than its note: the window's desktop is
/// known and differs from the note's (ignoring ASCII case).
pub fn window_on_other_desktop(window_desktop_id: Option<&str>, note_desktop: &str) -> (r: bool)
    ensures
        r == match window_desktop_id {
            Some(w) => !eq_ignore_ascii_case_spec(w@, note_desktop_id_spec(note_desktop@)),
            None => false,
        },
{
    match window_desktop_id {
        Some(w) => {
            let a = chars_of(w);
            let b = chars_of(note_desktop_id(note_desktop));
            !eq_ignore_ascii_case(&a, &b)
        },
        None => false,
    }
}

/// The text color after choosing a note color: white on black notes; black
/// again when a note leaves black with white text; else unchanged.
pub open spec fn text_color_after_background_spec(background: Seq<char>, text_color: Seq<char>) -> Seq<char> {
    if background == "black"@ {
        "white"@
    } else if text_color == "white"@ {
        "black"@
    } else {
        text_color
    }
}

/// The text color after choosing a note color.
pub fn text_color_after_background(background: &str, text_color: &str) -> (r: String)
    ensures
        r@ == text_color_after_background_spec(background@, text_color@),
{
    let bg = string_from(background);
    let black = string_from("black");
    let white = string_from("white");
    let current = string_from(text_color);
    if bg == black {
        white
    } else if current == white {
        black
    } else {
        current
    }
}

/// How a note's font is obtained.
pub enum FontFace {
    /// A font family by name, the system font if it is missing.
    Named(&'static str),
    /// The user's fixed-pitch font.
    FixedPitch,
    /// The system font.
    System,
}

/// The font face of a font choice: "rounded" is Avenir Next, "serif" Georgia,
/// "mono" the fixed-pitch font, "marker" Marker Felt, anything else the system
/// font.
pub open spec fn font_face_spec(key: Seq<char>) -> Option<Seq<char>> {
    if key == "rounded"@ {
        Some("Avenir Next"@)
    } else if key == "serif"@ {
        Some("Georgia"@)
    } else if key == "marker"@ {
        Some("Marker Felt"@)
    } else {
        None
    }
}

/// The font face of a font choice.
pub fn font_face(key: &str) -> (r: FontFace)
    ensures
        key@ == "mono"@ ==> r is FixedPitch,
        key@ != "mono"@ ==> match font_face_spec(key@) {
            Some(name) => r matches FontFace::Named(n) && n@ == name,
            None => r is System,
        },
{
    proof {
        reveal_strlit("mono");
        reveal_strlit("rounded");
        reveal_strlit("serif");
        assert("mono"@.len() == 4);
        assert("rounded"@.len() == 7);
        assert("serif"@.len() == 5);
        assert("mono"@ != "rounded"@);
        assert("mono"@ != "serif"@);
    }
    let k = string_from(key);
    if k == string_from("rounded") {
        FontFace::Named("Avenir Next")
    } else if k == string_from("serif") {
        FontFace::Named("Georgia")
    } else if k == string_from("mono") {
        FontFace::FixedPitch
    } else if k == string_from("marker") {
        FontFace::Named("Marker Felt")
    } else {
        FontFace::System
    }
}

proof fn lemma_last_visible(notes: Seq<(int, Seq<char>)>, active: Seq<Seq<char>>)
    ensures
        last_visible_spec(notes, active) matches Some(id) ==> exists|k: int|
            0 <= k < notes.len() && (#[trigger] notes[k]).0 == id && on_active_spec(active, notes[k].1),
    decreases notes.len(),
{
    if notes.len() > 0 {
        let p = notes.drop_last();
        lemma_last_visible(p, active);
        if !on_active_spec(active, notes.last().1) {
            if let Some(id) = last_visible_spec(p, active) {
                let k = choose|k: int|
                    0 <= k < p.len() && (#[trigger] p[k]).0 == id && on_active_spec(active, p[k].1);
                assert(notes[k] == p[k]);
            }
        } else {
            assert(notes[notes.len() - 1] == notes.last());
        }
    }
}

proof fn lemma_first_index_from(notes: Seq<(int, Seq<char>)>, id: int, i: int)
    ensures
        first_index_from(notes, id, i) matches Some(k) ==> 0 <= k < notes.len() && notes[k].0 == id,
    decreases notes.len() - i,
{
    if 0 <= i < notes.len() && notes[i].0 != id {
        lemma_first_index_from(notes, id, i + 1);
    }
}

proof fn lemma_first_visible_index_from(notes: Seq<(int, Seq<char>)>, active: Seq<Seq<char>>, id: int, i: int)
    ensures
        first_visible_index_from(notes, active, id, i) matches Some(k) ==> 0 <= k < notes.len()
            && notes[k].0 == id && on_active_spec(active, notes[k].1),
    decreases notes.len() - i,
{
    if 0 <= i < notes.len() && !(notes[i].0 == id && on_active_spec(active, notes[i].1)) {
        lemma_first_visible_index_from(notes, active, id, i + 1);
    }
}

/// "Move Selected Note to This Desktop" always has a note to move when there
/// is one, and what it picks is a note that exists.
pub proof fn lemma_move_selection_exists(
    notes: Seq<(int, Seq<char>)>,
    active: Seq<Seq<char>>,
    active_note: Option<int>,
)
    ensures
        selected_for_move_spec(notes, active, active_note) is None <==> notes.len() == 0,
        selected_for_move_spec(notes, active, active_note) matches Some(id) ==> exists|k: int|
            0 <= k < notes.len() && (#[trigger] notes[k]).0 == id,
{
    lemma_last_visible(notes, active);
    if let Some(id) = active_note {
        lemma_first_index_from(notes, id, 0);
    }
    if let Some(id) = selected_for_move_spec(notes, active, active_note) {
        if active_note == Some(id) && first_index_from(notes, id, 0) is Some {
            let k = first_index_from(notes, id, 0).unwrap();
            assert(notes[k].0 == id);
        } else if let Some(x) = last_visible_spec(notes, active) {
            let k = choose|k: int|
                0 <= k < notes.len() && (#[trigger] notes[k]).0 == x && on_active_spec(active, notes[k].1);
            assert(notes[k].0 == id);
        } else {
            assert(notes[notes.len() - 1].0 == id);
        }
    }
}

/// A style choice applies only to a note that is shown.
pub proof fn lemma_style_target_is_shown(
    notes: Seq<(int, Seq<char>)>,
    active: Seq<Seq<char>>,
    active_note: Option<int>,
)
    ensures
        style_target_spec(notes, active, active_note) matches Some(id) ==> exists|k: int|
            0 <= k < notes.len() && (#[trigger] notes[k]).0 == id && on_active_spec(active, notes[k].1),
{
    lemma_last_visible(notes, active);
    if let Some(id) = active_note {
        lemma_first_visible_index_from(notes, active, id, 0);
        if first_visible_index_from(notes, active, id, 0) is Some {
            let k = first_visible_index_from(notes, active, id, 0).unwrap();
            assert(notes[k].0 == id && on_active_spec(active, notes[k].1));
        }
    }
}

/// The set of active desktop identifiers is never empty, holds no identifier
/// twice, and holds exactly the identifiers of the active desktops (the
/// default desktop when there is none).
pub proof fn lemma_desktop_id_set(desktops: Seq<ActiveDesktop>)
    ensures
        desktop_id_set_spec(desktops).len() >= 1,
        desktop_id_set_spec(desktops).no_duplicates(),
        desktops.len() > 0 ==> forall|x: Seq<char>|
            #[trigger] desktop_id_set_spec(desktops).contains(x) <==> exists|k: int|
                0 <= k < desktops.len() && (#[trigger] desktops[k]).desktop_id@ == x,
{
    if desktops.len() == 0 {
        assert(desktop_id_set_spec(desktops)[0] == default_desktop_id());
    } else {
        let all = desktops.map_values(|d: ActiveDesktop| d.desktop_id@);
        lemma_dedup_seq(all);
        assert(all.contains(all[0]));
        assert(desktop_id_set_spec(desktops).contains(all[0]));
        assert forall|x: Seq<char>| #[trigger] desktop_id_set_spec(desktops).contains(x) <==> exists|k: int|
            0 <= k < desktops.len() && (#[trigger] desktops[k]).desktop_id@ == x by {
            if all.contains(x) {
                let k = choose|k: int| 0 <= k < all.len() && all[k] == x;
                assert(desktops[k].desktop_id@ == x);
            }
            if exists|k: int| 0 <= k < desktops.len() && (#[trigger] desktops[k]).desktop_id@ == x {
                let k = choose|k: int| 0 <= k < desktops.len() && (#[trigger] desktops[k]).desktop_id@ == x;
                assert(all[k] == x);
            }
        }
    }
}

proof fn lemma_first_index_found(notes: Seq<(int, Seq<char>)>, id: int, i: int, k: int)
    requires
        0 <= i <= k < notes.len(),
        notes[k].0 == id,
    ensures
        first_index_from(notes, id, i) is Some,
    decreases k - i,
{
    if notes[i].0 != id {
        lemma_first_index_found(notes, id, i + 1, k);
    }
}

proof fn lemma_first_visible_index_found(
    notes: Seq<(int, Seq<char>)>,
    active: Seq<Seq<char>>,
    id: int,
    i: int,
    k: int,
)
    requires
        0 <= i <= k < notes.len(),
        notes[k].0 == id,
        on_active_spec(active, notes[k].1),
    ensures
        first_visible_index_from(notes, active, id, i) is Some,
    decreases k - i,
{
    if !(notes[i].0 == id && on_active_spec(active, notes[i].1)) {
        lemma_first_visible_index_found(notes, active, id, i + 1, k);
    }
}

/// A style choice applies to the note last used whenever that note is shown
/// on an active desktop.
pub proof fn lemma_style_target_is_the_note_last_used(
    notes: Seq<(int, Seq<char>)>,
    active: Seq<Seq<char>>,
    id: int,
    k: int,
)
    requires
        0 <= k < notes.len(),
        notes[k].0 == id,
        on_active_spec(active, notes[k].1),
    ensures
        style_target_spec(notes, active, Some(id)) == Some(id),
{
    lemma_first_visible_index_found(notes, active, id, 0, k);
}

/// The note last used stays the one "Move Selected Note to This Desktop"
/// moves, and the one kept after the shown desktops change, as long as it
/// exists, shown or not.
pub proof fn lemma_note_last_used_is_kept(notes: Seq<(int, Seq<char>)>, active: Seq<Seq<char>>, id: int, k: int)
    requires
        0 <= k < notes.len(),
        notes[k].0 == id,
    ensures
        selected_for_move_spec(notes, active, Some(id)) == Some(id),
        refreshed_active_spec(notes, active, Some(id)) == Some(id),
{
    lemma_first_index_found(notes, id, 0, k);
}

} // verus!

//! The time zone of a session: a named zone or a fixed offset from UTC.

use chrono_tz::Tz;
use vstd::prelude::*;

use crate::delta::location::text;
use crate::text::{
    a_sign_makes_a_number_negative, all_digits, chars_of, digits_value, find_char, index_from,
    is_digit, lemma_index_from, parse_signed, signed_value, starts_with,
};

verus! {

/// The time zone of a session.
pub enum SessionTimezone {
    /// A zone of the time zone database, by its name.
    Tz(String),
    /// A fixed offset, in seconds east of UTC.
    Offset(i32),
    /// Neither. That is no error until a time has to be read in the zone.
    Invalid,
}

/// The time zone of a session, as mathematical values.
pub enum TimezoneState {
    Tz(Seq<char>),
    Offset(int),
    Invalid,
}

impl View for SessionTimezone {
    type V = TimezoneState;

    open spec fn view(&self) -> TimezoneState {
        match *self {
            SessionTimezone::Tz(name) => TimezoneState::Tz(name@),
            SessionTimezone::Offset(secs) => TimezoneState::Offset(secs as int),
            SessionTimezone::Invalid => TimezoneState::Invalid,
        }
    }
}

/// The name of the zone that a text reads as, where it is one of the time zone
/// database.
pub uninterp spec fn zone_named(s: Seq<char>) -> Option<Seq<char>>;

/// `chrono_tz::Tz` read from a text, and the name of the zone it gives.
#[verifier::external_body]
fn zone_name(s: &str) -> (r: Option<String>)
    ensures
        text(r) == zone_named(s@),
{
    s.parse::<Tz>().ok().map(|tz| tz.name().to_string())
}

/// The character is white space.
pub open spec fn is_white(c: char) -> bool {
    ||| '\u{9}' <= c <= '\u{d}'
    ||| c == ' '
    ||| c == '\u{85}'
    ||| c == '\u{a0}'
    ||| c == '\u{1680}'
    ||| '\u{2000}' <= c <= '\u{200a}'
    ||| c == '\u{2028}'
    ||| c == '\u{2029}'
    ||| c == '\u{202f}'
    ||| c == '\u{205f}'
    ||| c == '\u{3000}'
}

/// Whether a character is white space.
pub fn is_white_space(c: char) -> (r: bool)
    ensures
        r == is_white(c),
{
    ('\u{9}' <= c && c <= '\u{d}') || c == ' ' || c == '\u{85}' || c == '\u{a0}' || c
        == '\u{1680}' || ('\u{2000}' <= c && c <= '\u{200a}') || c == '\u{2028}' || c == '\u{2029}'
        || c == '\u{202f}' || c == '\u{205f}' || c == '\u{3000}'
}

/// The text without the white space at its start.
pub open spec fn trim_start(s: Seq<char>) -> Seq<char>
    decreases s.len(),
{
    if s.len() > 0 && is_white(s[0]) {
        trim_start(s.skip(1))
    } else {
        s
    }
}

/// The text without the white space at its end.
pub open spec fn trim_end(s: Seq<char>) -> Seq<char>
    decreases s.len(),
{
    if s.len() > 0 && is_white(s.last()) {
        trim_end(s.drop_last())
    } else {
        s
    }
}

/// The text without the white space around it.
pub open spec fn trimmed(s: Seq<char>) -> Seq<char> {
    trim_end(trim_start(s))
}

/// The text without the white space around it.
pub fn trim(s: &str) -> (r: &str)
    ensures
        r@ == trimmed(s@),
{
    let v: Vec<char> = chars_of(s);
    let n: usize = v.len();
    let mut from: usize = 0;
    assert(s@.skip(0) =~= s@);
    while from < n && is_white_space(v[from])
        invariant
            from <= n == v@.len(),
            v@ == s@,
            trim_start(s@) == trim_start(s@.skip(from as int)),
        decreases n - from,
    {
        assert(s@.skip(from as int).skip(1) =~= s@.skip(from + 1));
        from = from + 1;
    }
    assert(trim_start(s@) == s@.skip(from as int));
    let mut to: usize = n;
    assert(s@.subrange(from as int, n as int) =~= s@.skip(from as int));
    while from < to && is_white_space(v[to - 1])
        invariant
            from <= to <= n == v@.len(),
            v@ == s@,
            trim_end(s@.skip(from as int)) == trim_end(s@.subrange(from as int, to as int)),
        decreases to - from,
    {
        assert(s@.subrange(from as int, to as int).drop_last() =~= s@.subrange(
            from as int,
            to - 1,
        ));
        to = to - 1;
    }
    s.substring_char(from, to)
}

/// What is left of a text without white space around it and without `GMT` or
/// `UTC` in front.
pub open spec fn offset_body(s: Seq<char>) -> Seq<char> {
    let t = trimmed(s);
    if "GMT"@.is_prefix_of(t) || "UTC"@.is_prefix_of(t) {
        t.skip(3)
    } else {
        t
    }
}

/// The text stands for no offset at all.
pub open spec fn is_zulu(body: Seq<char>) -> bool {
    body.len() == 0 || (body.len() == 1 && (body[0] == 'Z' || body[0] == 'z'))
}

/// Two numbers, where both are.
pub open spec fn both(a: Option<int>, b: Option<int>) -> Option<(int, int)> {
    match (a, b) {
        (Some(x), Some(y)) => Some((x, y)),
        _ => None,
    }
}

/// The hours and minutes behind the sign: with a colon between them, or two digits
/// each, or hours alone.
pub open spec fn hours_and_minutes(rest: Seq<char>) -> Option<(int, int)> {
    let colon = index_from(rest, ':', 0);
    if colon < rest.len() {
        both(signed_value(rest.take(colon)), signed_value(rest.skip(colon + 1)))
    } else if rest.len() == 4 {
        both(signed_value(rest.take(2)), signed_value(rest.skip(2)))
    } else {
        both(signed_value(rest), Some(0))
    }
}

/// The sign that an offset starts with.
pub open spec fn sign_of(body: Seq<char>) -> Option<int> {
    if body.len() > 0 && body[0] == '+' {
        Some(1)
    } else if body.len() > 0 && body[0] == '-' {
        Some(-1)
    } else {
        None
    }
}

/// The fixed offset that a text reads as, in seconds east of UTC: less than a day
/// either way.
pub open spec fn fixed_offset(s: Seq<char>) -> Option<int> {
    let body = offset_body(s);
    if is_zulu(body) {
        Some(0)
    } else {
        match (sign_of(body), hours_and_minutes(body.skip(1))) {
            (Some(sign), Some((h, m))) => {
                let secs = sign * (h * 3600 + m * 60);
                if -86400 < secs < 86400 {
                    Some(secs)
                } else {
                    None
                }
            },
            _ => None,
        }
    }
}

fn parse_both(a: &str, b: &str) -> (r: Option<(i32, i32)>)
    ensures
        match r {
            Some((x, y)) => both(signed_value(a@), signed_value(b@)) == Some((x as int, y as int)),
            None => both(signed_value(a@), signed_value(b@)) is None,
        },
{
    match parse_signed(&chars_of(a)) {
        None => None,
        Some(x) => match parse_signed(&chars_of(b)) {
            None => None,
            Some(y) => Some((x, y)),
        },
    }
}

fn parse_hours_and_minutes(rest: &str) -> (r: Option<(i32, i32)>)
    ensures
        match r {
            Some((x, y)) => hours_and_minutes(rest@) == Some((x as int, y as int)),
            None => hours_and_minutes(rest@) is None,
        },
{
    let v: Vec<char> = chars_of(rest);
    let n: usize = v.len();
    let colon: usize = find_char(&v, ':', 0);
    if colon < n {
        let h: &str = rest.substring_char(0, colon);
        let m: &str = rest.substring_char(colon + 1, n);
        assert(h@ =~= rest@.take(colon as int));
        assert(m@ =~= rest@.skip(colon + 1));
        parse_both(h, m)
    } else if n == 4 {
        let h: &str = rest.substring_char(0, 2);
        let m: &str = rest.substring_char(2, 4);
        assert(h@ =~= rest@.take(2));
        assert(m@ =~= rest@.skip(2));
        parse_both(h, m)
    } else {
        match parse_signed(&v) {
            Some(h) => Some((h, 0)),
            None => None,
        }
    }
}

/// What is left of a text without white space around it and without `GMT` or
/// `UTC` in front.
fn offset_text(s: &str) -> (body: &str)
    ensures
        body@ == offset_body(s@),
{
    let trimmed_text: &str = trim(s);
    proof {
        reveal_strlit("GMT");
        reveal_strlit("UTC");
    }
    if starts_with(trimmed_text, "GMT") || starts_with(trimmed_text, "UTC") {
        let n: usize = trimmed_text.unicode_len();
        let b: &str = trimmed_text.substring_char(3, n);
        assert(b@ =~= trimmed_text@.skip(3));
        b
    } else {
        trimmed_text
    }
}

/// The fixed offset that a text reads as, in seconds east of UTC.
pub fn parse_fixed_offset(s: &str) -> (r: Option<i32>)
    ensures
        match r {
            Some(secs) => fixed_offset(s@) == Some(secs as int),
            None => fixed_offset(s@) is None,
        },
{
    let body: &str = offset_text(s);
    let v: Vec<char> = chars_of(body);
    let n: usize = v.len();
    if n == 0 || (n == 1 && (v[0] == 'Z' || v[0] == 'z')) {
        return Some(0);
    }
    let sign: i32 = if v[0] == '+' {
        1
    } else if v[0] == '-' {
        -1
    } else {
        return None;
    };
    let rest: &str = body.substring_char(1, n);
    assert(rest@ =~= body@.skip(1));
    match parse_hours_and_minutes(rest) {
        None => None,
        Some((h, m)) => {
            let sum: i64 = h as i64 * 3600 + m as i64 * 60;
            let secs: i64 = if sign == 1 {
                sum
            } else {
                -sum
            };
            assert(secs == sign * sum);
            if -86400 < secs && secs < 86400 {
                Some(secs as i32)
            } else {
                None
            }
        },
    }
}

/// The time zone that a text reads as: a named zone where it is one, else a fixed
/// offset.
pub open spec fn timezone_of(s: Seq<char>) -> TimezoneState {
    match zone_named(s) {
        Some(name) => TimezoneState::Tz(name),
        None => match fixed_offset(s) {
            Some(secs) => TimezoneState::Offset(secs),
            None => TimezoneState::Invalid,
        },
    }
}

impl SessionTimezone {
    /// The time zone that a text reads as.
    pub fn parse(session_tz: &str) -> (tz: SessionTimezone)
        ensures
            tz@ == timezone_of(session_tz@),
    {
        match zone_name(session_tz) {
            Some(name) => SessionTimezone::Tz(name),
            None => match parse_fixed_offset(session_tz) {
                Some(secs) => SessionTimezone::Offset(secs),
                None => SessionTimezone::Invalid,
            },
        }
    }

    /// The zone is a fixed offset that is less than a day.
    pub open spec fn offset_in_day(self) -> bool {
        self matches SessionTimezone::Offset(secs) ==> -86400 < secs < 86400
    }
}

/// All of the text is white space.
pub open spec fn all_white(s: Seq<char>) -> bool {
    forall|i: int| 0 <= i < s.len() ==> is_white(#[trigger] s[i])
}

/// A text without the white space around it is its middle: white space alone stands before
/// and behind it, and it neither starts nor ends with any.
pub proof fn trimming_takes_the_white_space_around(s: Seq<char>) -> (r: (int, int))
    ensures
        0 <= r.0 <= r.1 <= s.len(),
        trimmed(s) == s.subrange(r.0, r.1),
        all_white(s.subrange(0, r.0)),
        all_white(s.subrange(r.1, s.len() as int)),
        trimmed(s).len() > 0 ==> !is_white(trimmed(s)[0]) && !is_white(trimmed(s).last()),
{
    let a = lemma_trim_start(s);
    let t = trim_start(s);
    let b = lemma_trim_end(t);
    let from = a;
    let to = a + b;
    assert(trimmed(s) =~= s.subrange(from, to));
    assert forall|i: int| 0 <= i < s.subrange(to, s.len() as int).len() implies is_white(
        #[trigger] s.subrange(to, s.len() as int)[i],
    ) by {
        assert(t.subrange(b, t.len() as int)[i] == s[to + i]);
    }
    if trimmed(s).len() > 0 {
        assert(trimmed(s)[0] == t[0]);
    }
    (from, to)
}

proof fn lemma_trim_start(s: Seq<char>) -> (a: int)
    ensures
        0 <= a <= s.len(),
        trim_start(s) == s.subrange(a, s.len() as int),
        all_white(s.subrange(0, a)),
        trim_start(s).len() > 0 ==> !is_white(trim_start(s)[0]),
    decreases s.len(),
{
    if s.len() > 0 && is_white(s[0]) {
        let t = s.skip(1);
        let b = lemma_trim_start(t);
        assert(t.subrange(b, t.len() as int) =~= s.subrange(b + 1, s.len() as int));
        assert forall|i: int| 0 <= i < s.subrange(0, b + 1).len() implies is_white(
            #[trigger] s.subrange(0, b + 1)[i],
        ) by {
            if i > 0 {
                assert(t.subrange(0, b)[i - 1] == s[i]);
            }
        }
        b + 1
    } else {
        assert(s.subrange(0, s.len() as int) =~= s);
        0
    }
}

proof fn lemma_trim_end(s: Seq<char>) -> (b: int)
    ensures
        0 <= b <= s.len(),
        trim_end(s) == s.subrange(0, b),
        all_white(s.subrange(b, s.len() as int)),
        trim_end(s).len() > 0 ==> !is_white(trim_end(s).last()),
    decreases s.len(),
{
    if s.len() > 0 && is_white(s.last()) {
        let t = s.drop_last();
        let b = lemma_trim_end(t);
        assert(t.subrange(0, b) =~= s.subrange(0, b));
        assert forall|i: int| 0 <= i < s.subrange(b, s.len() as int).len() implies is_white(
            #[trigger] s.subrange(b, s.len() as int)[i],
        ) by {
            if b + i < t.len() {
                assert(t.subrange(b, t.len() as int)[i] == s[b + i]);
            }
        }
        b
    } else {
        assert(s.subrange(0, s.len() as int) =~= s);
        s.len() as int
    }
}

/// The characters that are white space, by their numbers.
pub proof fn white_space_has_these_numbers(c: char)
    ensures
        is_white(c) <==> {
            let n = c as u32;
            ||| 9 <= n <= 13
            ||| n == 32
            ||| n == 133
            ||| n == 160
            ||| n == 5760
            ||| 8192 <= n <= 8202
            ||| n == 8232
            ||| n == 8233
            ||| n == 8239
            ||| n == 8287
            ||| n == 12288
        },
{
}

/// The text has no white space around it and neither `GMT` nor `UTC` in front.
pub open spec fn is_bare(s: Seq<char>) -> bool {
    &&& s.len() > 0 ==> !is_white(s[0]) && !is_white(s.last())
    &&& !"GMT"@.is_prefix_of(s)
    &&& !"UTC"@.is_prefix_of(s)
}

proof fn lemma_bare(s: Seq<char>)
    requires
        is_bare(s),
    ensures
        offset_body(s) == s,
{
    assert(trim_start(s) == s);
    assert(trim_end(s) == s);
}

proof fn lemma_digits_are_signed(d: Seq<char>)
    requires
        all_digits(d),
        digits_value(d) <= 0x7fff_ffff,
    ensures
        signed_value(d) == Some(digits_value(d)),
{
    a_sign_makes_a_number_negative(d);
}

proof fn lemma_no_colon(d: Seq<char>)
    requires
        all_digits(d),
    ensures
        index_from(d, ':', 0) == d.len(),
{
    lemma_index_from(d, ':', 0);
    let j = index_from(d, ':', 0);
    if j < d.len() {
        assert(is_digit(d[j]));
    }
}

/// Hours and minutes are read as the numbers that they are: with a colon between them, or
/// two digits each behind one another. Hours may stand alone.
pub proof fn hours_and_minutes_are_read_as_they_are(h: Seq<char>, m: Seq<char>)
    requires
        all_digits(h),
        all_digits(m),
        digits_value(h) <= 0x7fff_ffff,
        digits_value(m) <= 0x7fff_ffff,
    ensures
        hours_and_minutes(h + seq![':'] + m) == Some((digits_value(h), digits_value(m))),
        h.len() == 2 && m.len() == 2 ==> hours_and_minutes(h + m) == Some(
            (digits_value(h), digits_value(m)),
        ),
        h.len() != 4 ==> hours_and_minutes(h) == Some((digits_value(h), 0int)),
{
    lemma_digits_are_signed(h);
    lemma_digits_are_signed(m);
    lemma_colon_between(h, m);
    let y = h + m;
    assert(all_digits(y)) by {
        assert forall|i: int| 0 <= i < y.len() implies is_digit(#[trigger] y[i]) by {
            if i < h.len() {
                assert(y[i] == h[i]);
            } else {
                assert(y[i] == m[i - h.len()]);
            }
        }
    }
    lemma_no_colon(y);
    lemma_no_colon(h);
    if h.len() == 2 {
        assert(y.take(2) =~= h);
        assert(y.skip(2) =~= m);
    }
}

proof fn lemma_colon_between(h: Seq<char>, m: Seq<char>)
    requires
        all_digits(h),
        all_digits(m),
    ensures
        ({
            let x = h + seq![':'] + m;
            let k = index_from(x, ':', 0);
            k == h.len() && k < x.len() && x.take(k) == h && x.skip(k + 1) == m
        }),
{
    let x = h + seq![':'] + m;
    lemma_index_from(x, ':', 0);
    let k = index_from(x, ':', 0);
    assert(x[h.len() as int] == ':');
    if k < h.len() {
        assert(x[k] == h[k]);
        assert(is_digit(h[k]));
    }
    assert(x.take(h.len() as int) =~= h);
    assert(x.skip(h.len() + 1int) =~= m);
}

/// An offset counts its hours and minutes east of UTC behind a plus sign and west of it
/// behind a minus sign. One of a day or more is none.
pub proof fn a_sign_says_east_or_west(s: Seq<char>, h: int, m: int)
    requires
        is_bare(s),
        s.len() > 1,
        hours_and_minutes(s.skip(1)) == Some((h, m)),
    ensures
        s[0] == '+' && -86400 < h * 3600 + m * 60 < 86400 ==> fixed_offset(s) == Some(
            h * 3600 + m * 60,
        ),
        s[0] == '-' && -86400 < h * 3600 + m * 60 < 86400 ==> fixed_offset(s) == Some(
            -(h * 3600 + m * 60),
        ),
        !(-86400 < h * 3600 + m * 60 < 86400) ==> fixed_offset(s) is None,
{
    lemma_bare(s);
    let x = h * 3600 + m * 60;
    assert(1 * x == x && (-1) * x == -x) by (nonlinear_arith);
}

/// `GMT` or `UTC` in front of an offset has no say in it.
pub proof fn gmt_and_utc_have_no_say_in_an_offset(p: Seq<char>, s: Seq<char>)
    requires
        p == "GMT"@ || p == "UTC"@,
        is_bare(s),
    ensures
        fixed_offset(p + s) == fixed_offset(s),
{
    reveal_strlit("GMT");
    reveal_strlit("UTC");
    lemma_bare(s);
    let t = p + s;
    assert(p.len() == 3);
    assert(!is_white(p[0]) && !is_white(p[2]));
    assert(t[0] == p[0]);
    if s.len() > 0 {
        assert(t.last() == s.last());
    } else {
        assert(t.last() == p[2]);
    }
    assert(trim_start(t) == t);
    assert(trim_end(t) == t);
    assert(p.is_prefix_of(t)) by {
        assert(t.subrange(0, 3) =~= p);
    }
    assert(t.skip(3) =~= s);
    assert(offset_body(t) == s);
}

/// No offset at all, as `Z` is, and a text that starts with no sign is none.
pub proof fn an_offset_has_a_sign_or_is_none_at_all(s: Seq<char>)
    requires
        is_bare(s),
    ensures
        s.len() == 0 ==> fixed_offset(s) == Some(0int),
        s.len() == 1 && (s[0] == 'Z' || s[0] == 'z') ==> fixed_offset(s) == Some(0int),
        s.len() > 1 && s[0] != '+' && s[0] != '-' ==> fixed_offset(s) is None,
{
    lemma_bare(s);
}

/// A session's time zone is the zone of that name where there is one, else the offset that
/// the text reads as, else none.
pub proof fn a_named_zone_goes_before_an_offset(s: Seq<char>)
    ensures
        zone_named(s) matches Some(name) ==> timezone_of(s) == TimezoneState::Tz(name),
        zone_named(s) is None ==> (fixed_offset(s) matches Some(secs) ==> timezone_of(s)
            == TimezoneState::Offset(secs)),
        zone_named(s) is None && fixed_offset(s) is None ==> timezone_of(s)
            == TimezoneState::Invalid,
        fixed_offset(s) matches Some(secs) ==> -86400 < secs < 86400,
{
}

} // verus!

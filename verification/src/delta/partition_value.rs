//! Partition values: texts in a table's log, read as values of the column's type.

use chrono::{DateTime, FixedOffset, LocalResult, NaiveDate, NaiveDateTime, NaiveTime, TimeZone};
use chrono_tz::Tz;
use datafusion::arrow::datatypes::DataType;
use datafusion::common::ScalarValue;
use vstd::prelude::*;

use crate::delta::location::text;
use crate::delta::timezone::{SessionTimezone, TimezoneState};
use crate::text::{concat2, concat3, str_eq};

verus! {

/// A value of a type that is no timestamp.
#[verifier::external_type_specification]
#[verifier::external_body]
pub struct ExScalarValue(datafusion::common::ScalarValue);

/// The unit that a timestamp counts.
#[derive(Clone, Copy, Debug, PartialEq, Eq, Structural)]
pub enum TimeUnit {
    Second,
    Millisecond,
    Microsecond,
    Nanosecond,
}

/// The type of a partition column.
#[derive(Clone, Debug)]
pub struct PartitionType {
    /// How Arrow writes the type.
    pub name: String,
    /// Of a timestamp, its unit and its time zone.
    pub timestamp: Option<(TimeUnit, Option<String>)>,
}

/// The type of a partition column, as mathematical values.
pub struct PartitionTypeState {
    pub name: Seq<char>,
    pub timestamp: Option<(TimeUnit, Option<Seq<char>>)>,
}

impl View for PartitionType {
    type V = PartitionTypeState;

    open spec fn view(&self) -> PartitionTypeState {
        PartitionTypeState {
            name: self.name@,
            timestamp: match self.timestamp {
                Some((unit, tz)) => Some((unit, text(tz))),
                None => None,
            },
        }
    }
}

/// A partition value.
pub enum PartitionValue {
    /// A timestamp.
    Timestamp { unit: TimeUnit, value: i64, tz: Option<String> },
    /// A value of any other type, or the missing value of any type.
    Scalar(ScalarValue),
}

/// A partition value, as mathematical values.
pub enum PartitionValueState {
    Timestamp { unit: TimeUnit, value: int, tz: Option<Seq<char>> },
    Scalar(ScalarValue),
}

impl View for PartitionValue {
    type V = PartitionValueState;

    open spec fn view(&self) -> PartitionValueState {
        match *self {
            PartitionValue::Timestamp { unit, value, tz } => PartitionValueState::Timestamp {
                unit,
                value: value as int,
                tz: text(tz),
            },
            PartitionValue::Scalar(v) => PartitionValueState::Scalar(v),
        }
    }
}

/// The first second of the first day that a date can be.
pub open spec fn first_second() -> int {
    -8_334_601_228_800
}

/// The last second of the last day that a date can be.
pub open spec fn last_second() -> int {
    8_210_266_876_799
}

/// Seconds since 1970 and nanoseconds that are a time of day on a date. The
/// nanoseconds of a leap second are over a billion.
pub open spec fn is_naive(secs: int, nanos: int) -> bool {
    &&& first_second() <= secs <= last_second()
    &&& 0 <= nanos < 2_000_000_000
    &&& nanos >= 1_000_000_000 ==> secs % 60 == 59
}

/// What a text reads as by a format: seconds since 1970 and nanoseconds of the
/// time of day on the date, or why it does not.
pub uninterp spec fn naive_parse(s: Seq<char>, format: Seq<char>) -> Result<(i64, u32), Seq<char>>;

/// What a text reads as by a format: seconds since 1970 of midnight on the date, or
/// why it does not.
pub uninterp spec fn date_parse(s: Seq<char>, format: Seq<char>) -> Result<i64, Seq<char>>;

/// The instant that a text reads as by RFC 3339, in microseconds since 1970.
pub uninterp spec fn rfc3339_parse(s: Seq<char>) -> Option<i64>;

/// The instant that a text reads as by a format with an offset, in microseconds
/// since 1970.
pub uninterp spec fn instant_parse(s: Seq<char>, format: Seq<char>) -> Option<i64>;

/// The instants at which a zone's clocks show a time, in microseconds since 1970:
/// the first, and the second where there are two. Nothing where they skip the time,
/// or there is no such zone.
pub uninterp spec fn zone_local(name: Seq<char>, secs: i64, nanos: u32) -> Option<
    (i64, Option<i64>),
>;

/// The value that a text reads as in the type that Arrow writes so.
pub uninterp spec fn scalar_parse(s: Seq<char>, arrow_type: Seq<char>) -> Result<
    ScalarValue,
    Seq<char>,
>;

/// The missing value of the type that Arrow writes so.
pub uninterp spec fn null_of(arrow_type: Seq<char>) -> Result<ScalarValue, Seq<char>>;

/// An outcome with its error as a mathematical value.
pub open spec fn viewed<T>(r: Result<T, String>) -> Result<T, Seq<char>> {
    match r {
        Ok(v) => Ok(v),
        Err(e) => Err(e@),
    }
}

/// `chrono::NaiveDateTime::parse_from_str`, the result as seconds since 1970 and
/// nanoseconds. They are a time of day on a date that a `NaiveDate` can be. The
/// formats are two that have a date and a time of day and no offset.
#[verifier::external_body]
fn parse_naive(s: &str, format: &str) -> (r: Result<(i64, u32), String>)
    requires
        format@ == "%Y-%m-%d %H:%M:%S%.f"@ || format@ == "%Y-%m-%d %H:%M:%S"@,
    ensures
        viewed(r) == naive_parse(s@, format@),
        r matches Ok(p) ==> is_naive(p.0 as int, p.1 as int),
{
    NaiveDateTime::parse_from_str(s, format)
        .map(|d| (d.and_utc().timestamp(), d.and_utc().timestamp_subsec_nanos()))
        .map_err(|e| e.to_string())
}

/// `chrono::NaiveDate::parse_from_str`, the result as seconds since 1970 of its
/// midnight. The format has a date alone.
#[verifier::external_body]
fn parse_date(s: &str, format: &str) -> (r: Result<i64, String>)
    requires
        format@ == "%Y-%m-%d"@,
    ensures
        viewed(r) == date_parse(s@, format@),
        r matches Ok(secs) ==> is_naive(secs as int, 0),
{
    NaiveDate::parse_from_str(s, format)
        .map(|d| d.and_time(NaiveTime::MIN).and_utc().timestamp())
        .map_err(|e| e.to_string())
}

/// `chrono::DateTime::parse_from_rfc3339`.
#[verifier::external_body]
fn parse_rfc3339(s: &str) -> (r: Option<i64>)
    ensures
        r == rfc3339_parse(s@),
{
    DateTime::parse_from_rfc3339(s).ok().map(|d| d.timestamp_micros())
}

/// `chrono::DateTime::parse_from_str`. The formats are two that have a date, a time
/// of day and an offset.
#[verifier::external_body]
fn parse_instant(s: &str, format: &str) -> (r: Option<i64>)
    requires
        format@ == "%Y-%m-%d %H:%M:%S%.f %z"@ || format@ == "%Y-%m-%d %H:%M:%S %z"@,
    ensures
        r == instant_parse(s@, format@),
{
    DateTime::parse_from_str(s, format).ok().map(|d| d.timestamp_micros())
}

/// `chrono::TimeZone::from_local_datetime` on the zone of the time zone database
/// with a name.
#[verifier::external_body]
fn local_in_zone(name: &str, secs: i64, nanos: u32) -> (r: Option<(i64, Option<i64>)>)
    requires
        is_naive(secs as int, nanos as int),
    ensures
        r == zone_local(name@, secs, nanos),
{
    let tz = name.parse::<Tz>().ok()?;
    match tz.from_local_datetime(&DateTime::from_timestamp(secs, nanos)?.naive_utc()) {
        LocalResult::Single(d) => Some((d.timestamp_micros(), None)),
        LocalResult::Ambiguous(a, b) => Some((a.timestamp_micros(), Some(b.timestamp_micros()))),
        LocalResult::None => None,
    }
}

/// The instant at which clocks at an offset show a time, in microseconds since
/// 1970. Nothing where it is outside the dates that there are.
pub open spec fn offset_local(offset: int, secs: int, nanos: int) -> Option<int> {
    if first_second() <= secs - offset <= last_second() {
        Some(micros_of(secs - offset, nanos))
    } else {
        None
    }
}

/// `chrono::TimeZone::from_local_datetime` at a fixed offset: the time less the
/// offset, unless that is outside the dates that there are.
#[verifier::external_body]
fn local_at_offset(offset: i32, secs: i64, nanos: u32) -> (r: Option<i64>)
    requires
        -86400 < offset < 86400,
        is_naive(secs as int, nanos as int),
    ensures
        match r {
            Some(m) => offset_local(offset as int, secs as int, nanos as int) == Some(m as int),
            None => offset_local(offset as int, secs as int, nanos as int) is None,
        },
{
    let local = DateTime::from_timestamp(secs, nanos)?.naive_utc();
    let zone = FixedOffset::east_opt(offset)?;
    zone.from_local_datetime(&local).single().map(|d| d.timestamp_micros())
}

/// `datafusion::common::ScalarValue::try_from_string`, the type read from how Arrow
/// writes it.
#[verifier::external_body]
fn parse_scalar(s: &str, arrow_type: &str) -> (r: Result<ScalarValue, String>)
    ensures
        viewed(r) == scalar_parse(s@, arrow_type@),
{
    let data_type = arrow_type.parse::<DataType>().map_err(|e| e.to_string())?;
    ScalarValue::try_from_string(s.to_string(), &data_type).map_err(|e| e.to_string())
}

/// A word stands somewhere in a text.
pub open spec fn holds_word(s: Seq<char>, word: Seq<char>) -> bool {
    exists|i: int| 0 <= i && #[trigger] word_at(s, word, i)
}

/// A word stands at a place in a text.
pub open spec fn word_at(s: Seq<char>, word: Seq<char>, i: int) -> bool {
    i + word.len() <= s.len() && s.subrange(i, i + word.len()) == word
}

/// How Arrow writes a type that is made of lists, structs or maps. Delta has no
/// partition column of such a type.
pub open spec fn is_nested(arrow_type: Seq<char>) -> bool {
    holds_word(arrow_type, "List"@) || holds_word(arrow_type, "Struct"@) || holds_word(
        arrow_type,
        "Map"@,
    )
}

/// How Arrow writes a part of a type that an array may be impossible to make of: one with
/// a size, a unit, a key or fields that need not fit.
pub open spec fn may_not_fit(arrow_type: Seq<char>) -> bool {
    ||| holds_word(arrow_type, "FixedSize"@)
    ||| holds_word(arrow_type, "Map"@)
    ||| holds_word(arrow_type, "Dictionary"@)
    ||| holds_word(arrow_type, "Union"@)
    ||| holds_word(arrow_type, "RunEndEncoded"@)
    ||| holds_word(arrow_type, "Time32"@)
    ||| holds_word(arrow_type, "Time64"@)
}

/// A nested type with a part that may not fit. The missing value of a nested type is an
/// array, and of some of these none can be made.
pub open spec fn may_have_no_array(arrow_type: Seq<char>) -> bool {
    is_nested(arrow_type) && may_not_fit(arrow_type)
}

fn find_word(s: &str, word: &str) -> (r: bool)
    ensures
        r == holds_word(s@, word@),
{
    let n: usize = s.unicode_len();
    let m: usize = word.unicode_len();
    if n < m {
        return false;
    }
    let mut i: usize = 0;
    while i <= n - m
        invariant
            n == s@.len(),
            m == word@.len(),
            m <= n,
            i <= n - m + 1,
            forall|j: int| 0 <= j < i ==> !#[trigger] word_at(s@, word@, j),
        decreases n - m + 1 - i,
    {
        let here: &str = s.substring_char(i, i + m);
        if str_eq(here, word) {
            assert(word_at(s@, word@, i as int));
            return true;
        }
        if i == n - m {
            assert forall|j: int| 0 <= j implies !#[trigger] word_at(s@, word@, j) by {
                assert(j == i ==> s@.subrange(j, j + m) != word@);
            }
            return false;
        }
        i = i + 1;
    }
    false
}

fn nested_unfit(arrow_type: &str) -> (r: bool)
    ensures
        r == may_have_no_array(arrow_type@),
{
    let nested: bool = find_word(arrow_type, "List") || find_word(arrow_type, "Struct")
        || find_word(arrow_type, "Map");
    nested && (find_word(arrow_type, "FixedSize") || find_word(arrow_type, "Map") || find_word(
        arrow_type,
        "Dictionary",
    ) || find_word(arrow_type, "Union") || find_word(arrow_type, "RunEndEncoded") || find_word(
        arrow_type,
        "Time32",
    ) || find_word(arrow_type, "Time64"))
}

/// The missing value of a type, or why there is none: a nested type with a part that may
/// not fit has none here.
pub open spec fn missing_of(arrow_type: Seq<char>) -> Result<ScalarValue, Seq<char>> {
    if may_have_no_array(arrow_type) {
        Err("no missing value of the nested type "@ + arrow_type)
    } else {
        null_of(arrow_type)
    }
}

/// The missing value of a type.
pub fn missing_value(arrow_type: &str) -> (r: Result<ScalarValue, String>)
    ensures
        viewed(r) == missing_of(arrow_type@),
{
    if nested_unfit(arrow_type) {
        Err(concat2("no missing value of the nested type ", arrow_type))
    } else {
        null_scalar(arrow_type)
    }
}

/// `datafusion::common::ScalarValue` made from a type alone: its missing value. The
/// type is read from how Arrow writes it. A nested type with a part that may not fit is
/// left out: of some, such as a list of a negative size or of times of day that count a
/// unit they cannot, no value can be made.
#[verifier::external_body]
fn null_scalar(arrow_type: &str) -> (r: Result<ScalarValue, String>)
    requires
        !may_have_no_array(arrow_type@),
    ensures
        viewed(r) == null_of(arrow_type@),
{
    let data_type = arrow_type.parse::<DataType>().map_err(|e| e.to_string())?;
    ScalarValue::try_from(&data_type).map_err(|e| e.to_string())
}

/// Microseconds since 1970.
pub open spec fn micros_of(secs: int, nanos: int) -> int {
    secs * 1_000_000 + nanos / 1000
}

fn to_micros(secs: i64, nanos: u32) -> (m: i64)
    requires
        is_naive(secs as int, nanos as int),
    ensures
        m == micros_of(secs as int, nanos as int),
{
    secs * 1_000_000 + (nanos / 1000) as i64
}

/// The time of day on a date that a text reads as: with a time, or a date alone,
/// which is its midnight.
pub open spec fn naive_of(s: Seq<char>) -> Result<(i64, u32), Seq<char>> {
    match naive_parse(s, "%Y-%m-%d %H:%M:%S%.f"@) {
        Ok(p) => Ok(p),
        Err(_) => match naive_parse(s, "%Y-%m-%d %H:%M:%S"@) {
            Ok(p) => Ok(p),
            Err(_) => match date_parse(s, "%Y-%m-%d"@) {
                Ok(secs) => Ok((secs, 0u32)),
                Err(e) => Err(e),
            },
        },
    }
}

fn read_naive(s: &str) -> (r: Result<(i64, u32), String>)
    ensures
        viewed(r) == naive_of(s@),
        r matches Ok(p) ==> is_naive(p.0 as int, p.1 as int),
{
    match parse_naive(s, "%Y-%m-%d %H:%M:%S%.f") {
        Ok(p) => Ok(p),
        Err(_) => match parse_naive(s, "%Y-%m-%d %H:%M:%S") {
            Ok(p) => Ok(p),
            Err(_) => match parse_date(s, "%Y-%m-%d") {
                Ok(secs) => Ok((secs, 0)),
                Err(e) => Err(e),
            },
        },
    }
}

/// A quotient rounded towards zero.
pub open spec fn rounded_quotient(a: int, b: int) -> int {
    if a >= 0 {
        a / b
    } else {
        -((-a) / b)
    }
}

fn quotient(a: i64, b: i64) -> (q: i64)
    requires
        b > 1,
    ensures
        q == rounded_quotient(a as int, b as int),
{
    if a >= 0 {
        a / b
    } else {
        // The smallest number has no opposite, so its opposite is taken in parts.
        let m: i64 = -(a + 1);
        let q: i64 = m / b;
        let r: i64 = m % b;
        proof {
            let n = -(a as int);
            assert(n == m + 1);
            assert(m == q * b + r) by {
                vstd::arithmetic::div_mod::lemma_fundamental_div_mod(m as int, b as int);
                vstd::arithmetic::mul::lemma_mul_is_commutative(b as int, q as int);
            }
            if r + 1 == b {
                assert(n == (q + 1) * b) by (nonlinear_arith)
                    requires
                        n == m + 1,
                        m == q * b + r,
                        r + 1 == b,
                ;
                vstd::arithmetic::div_mod::lemma_fundamental_div_mod_converse(
                    n,
                    b as int,
                    q + 1,
                    0,
                );
            } else {
                assert(n == q * b + (r + 1));
                vstd::arithmetic::div_mod::lemma_fundamental_div_mod_converse(
                    n,
                    b as int,
                    q as int,
                    r + 1,
                );
            }
            assert(q <= m / 2) by (nonlinear_arith)
                requires
                    m == q * b + r,
                    r >= 0,
                    b > 1,
                    m >= 0,
            ;
        }
        if r + 1 == b {
            -(q + 1)
        } else {
            -q
        }
    }
}

/// A number of microseconds in a unit, where it is no smaller one.
pub open spec fn in_unit(unit: TimeUnit, micros: int) -> int {
    match unit {
        TimeUnit::Second => rounded_quotient(micros, 1_000_000),
        TimeUnit::Millisecond => rounded_quotient(micros, 1000),
        TimeUnit::Microsecond => micros,
        TimeUnit::Nanosecond => micros * 1000,
    }
}

/// The number is a 64-bit signed one.
pub open spec fn fits_i64(n: int) -> bool {
    i64::MIN <= n <= i64::MAX
}

/// The nearest 64-bit signed number.
pub open spec fn saturated(n: int) -> int {
    if n < i64::MIN {
        i64::MIN as int
    } else if n > i64::MAX {
        i64::MAX as int
    } else {
        n
    }
}

fn scaled(unit: TimeUnit, micros: i64) -> (r: Option<i64>)
    ensures
        match r {
            Some(v) => v == in_unit(unit, micros as int),
            None => !fits_i64(in_unit(unit, micros as int)),
        },
{
    match unit {
        TimeUnit::Second => Some(quotient(micros, 1_000_000)),
        TimeUnit::Millisecond => Some(quotient(micros, 1000)),
        TimeUnit::Microsecond => Some(micros),
        TimeUnit::Nanosecond => if -9_223_372_036_854_775 <= micros && micros
            <= 9_223_372_036_854_775 {
            Some(micros * 1000)
        } else {
            None
        },
    }
}

fn scaled_saturating(unit: TimeUnit, micros: i64) -> (v: i64)
    ensures
        v == saturated(in_unit(unit, micros as int)),
{
    proof {
        lemma_only_nanoseconds_overflow(unit, micros as int);
    }
    match scaled(unit, micros) {
        Some(v) => v,
        None => if micros < 0 {
            i64::MIN
        } else {
            i64::MAX
        },
    }
}

proof fn lemma_only_nanoseconds_overflow(unit: TimeUnit, micros: int)
    requires
        fits_i64(micros),
    ensures
        unit != TimeUnit::Nanosecond ==> fits_i64(in_unit(unit, micros)),
{
    if micros < 0 {
        assert((-micros) / 1000 <= -micros);
        assert((-micros) / 1_000_000 <= -micros);
    }
}

/// The instant that a text reads as, in microseconds since 1970, or why it does
/// not. A text that gives an offset is read by it; one that gives none is read by
/// the session's clocks. A time that these show twice is the first of the two, and
/// one that they skip is read in UTC.
pub open spec fn instant_of(s: Seq<char>, tz: TimezoneState, session_tz: Seq<char>) -> Result<
    int,
    Seq<char>,
> {
    if rfc3339_parse(s) is Some {
        Ok(rfc3339_parse(s)->0 as int)
    } else if instant_parse(s, "%Y-%m-%d %H:%M:%S%.f %z"@) is Some {
        Ok(instant_parse(s, "%Y-%m-%d %H:%M:%S%.f %z"@)->0 as int)
    } else if instant_parse(s, "%Y-%m-%d %H:%M:%S %z"@) is Some {
        Ok(instant_parse(s, "%Y-%m-%d %H:%M:%S %z"@)->0 as int)
    } else {
        match naive_of(s) {
            Err(e) => Err("cannot parse timestamp '"@ + s + "': "@ + e),
            Ok((secs, nanos)) => local_instant_of(tz, session_tz, secs, nanos),
        }
    }
}

fn read_instant(s: &str, tz: &SessionTimezone, session_tz: &str) -> (r: Result<i64, String>)
    requires
        tz.offset_in_day(),
    ensures
        match r {
            Ok(m) => instant_of(s@, tz@, session_tz@) == Ok::<int, Seq<char>>(m as int),
            Err(e) => instant_of(s@, tz@, session_tz@) == Err::<int, Seq<char>>(e@),
        },
{
    match parse_rfc3339(s) {
        Some(m) => {
            return Ok(m);
        },
        None => {},
    }
    match parse_instant(s, "%Y-%m-%d %H:%M:%S%.f %z") {
        Some(m) => {
            return Ok(m);
        },
        None => {},
    }
    match parse_instant(s, "%Y-%m-%d %H:%M:%S %z") {
        Some(m) => {
            return Ok(m);
        },
        None => {},
    }
    match read_naive(s) {
        Err(e) => Err(concat3("cannot parse timestamp '", s, "': ").concat(e.as_str())),
        Ok((secs, nanos)) => local_instant(tz, session_tz, secs, nanos),
    }
}

/// The instant at which the session's clocks show a time, in microseconds since
/// 1970, or why there is none.
pub open spec fn local_instant_of(
    tz: TimezoneState,
    session_tz: Seq<char>,
    secs: i64,
    nanos: u32,
) -> Result<int, Seq<char>> {
    let utc = micros_of(secs as int, nanos as int);
    match tz {
        TimezoneState::Tz(name) => Ok(
            match zone_local(name, secs, nanos) {
                Some((first, _)) => first as int,
                None => utc,
            },
        ),
        TimezoneState::Offset(offset) => Ok(
            match offset_local(offset, secs as int, nanos as int) {
                Some(m) => m,
                None => utc,
            },
        ),
        TimezoneState::Invalid => Err("invalid session TZ '"@ + session_tz + "'"@),
    }
}

/// The instant at which the session's clocks show a time.
pub fn local_instant(tz: &SessionTimezone, session_tz: &str, secs: i64, nanos: u32) -> (r: Result<
    i64,
    String,
>)
    requires
        tz.offset_in_day(),
        is_naive(secs as int, nanos as int),
    ensures
        match r {
            Ok(m) => local_instant_of(tz@, session_tz@, secs, nanos) == Ok::<int, Seq<char>>(
                m as int,
            ),
            Err(e) => local_instant_of(tz@, session_tz@, secs, nanos) == Err::<int, Seq<char>>(e@),
        },
{
    match tz {
        SessionTimezone::Tz(name) => match local_in_zone(name.as_str(), secs, nanos) {
            Some((first, _)) => Ok(first),
            None => Ok(to_micros(secs, nanos)),
        },
        SessionTimezone::Offset(offset) => match local_at_offset(*offset, secs, nanos) {
            Some(m) => Ok(m),
            None => Ok(to_micros(secs, nanos)),
        },
        SessionTimezone::Invalid => Err(concat3("invalid session TZ '", session_tz, "'")),
    }
}

/// What reading a partition value brings.
pub enum ScalarOutcome {
    /// The value.
    Value(PartitionValueState),
    /// Why there is none.
    Error(Seq<char>),
    /// An instant that is no 64-bit number of nanoseconds.
    Overflow,
}

/// What reading an instant in a unit brings.
pub open spec fn instant_outcome(
    instant: Result<int, Seq<char>>,
    unit: TimeUnit,
    zone: Seq<char>,
) -> ScalarOutcome {
    match instant {
        Err(e) => ScalarOutcome::Error(e),
        Ok(micros) => if unit == TimeUnit::Nanosecond && !fits_i64(micros * 1000) {
            ScalarOutcome::Overflow
        } else {
            ScalarOutcome::Value(
                PartitionValueState::Timestamp {
                    unit,
                    value: in_unit(unit, micros),
                    tz: Some(zone),
                },
            )
        },
    }
}

/// What reading a time without a zone in a unit brings. Too many nanoseconds are
/// as many as there can be.
pub open spec fn naive_outcome(
    s: Seq<char>,
    naive: Result<(i64, u32), Seq<char>>,
    unit: TimeUnit,
) -> ScalarOutcome {
    match naive {
        Err(e) => ScalarOutcome::Error("cannot parse TIMESTAMP_NTZ '"@ + s + "': "@ + e),
        Ok((secs, nanos)) => ScalarOutcome::Value(
            PartitionValueState::Timestamp {
                unit,
                value: saturated(in_unit(unit, micros_of(secs as int, nanos as int))),
                tz: None,
            },
        ),
    }
}

/// What reading a text as a value of a partition column brings.
pub open spec fn scalar_outcome(
    s: Seq<char>,
    dt: PartitionTypeState,
    tz: TimezoneState,
    session_tz: Seq<char>,
) -> ScalarOutcome {
    match dt.timestamp {
        Some((unit, None)) => naive_outcome(s, naive_of(s), unit),
        Some((unit, Some(zone))) => instant_outcome(instant_of(s, tz, session_tz), unit, zone),
        None => match scalar_parse(s, dt.name) {
            Ok(v) => ScalarOutcome::Value(PartitionValueState::Scalar(v)),
            Err(e) => ScalarOutcome::Error(e),
        },
    }
}

/// A value or an error, as the outcome that it stands for.
pub open spec fn outcome_of(r: Result<PartitionValue, String>) -> ScalarOutcome {
    match r {
        Ok(v) => ScalarOutcome::Value(v@),
        Err(e) => ScalarOutcome::Error(e@),
    }
}

/// A timestamp without a zone, from a time that was read.
pub fn naive_timestamp(s: &str, naive: Result<(i64, u32), String>, unit: TimeUnit) -> (r: Result<
    PartitionValue,
    String,
>)
    requires
        naive matches Ok(p) ==> is_naive(p.0 as int, p.1 as int),
    ensures
        outcome_of(r) == naive_outcome(s@, viewed(naive), unit),
{
    match naive {
        Err(e) => Err(concat3("cannot parse TIMESTAMP_NTZ '", s, "': ").concat(e.as_str())),
        Ok((secs, nanos)) => {
            let micros: i64 = to_micros(secs, nanos);
            Ok(
                PartitionValue::Timestamp {
                    unit,
                    value: scaled_saturating(unit, micros),
                    tz: None,
                },
            )
        },
    }
}

/// A timestamp with a zone, from an instant that was read, in microseconds since
/// 1970. There is none where the instant is no 64-bit number of nanoseconds.
pub fn zoned_timestamp(instant: Result<i64, String>, unit: TimeUnit, zone: &String) -> (r: Option<
    Result<PartitionValue, String>,
>)
    ensures
        ({
            let i = match instant {
                Ok(m) => Ok::<int, Seq<char>>(m as int),
                Err(e) => Err::<int, Seq<char>>(e@),
            };
            match r {
                Some(v) => outcome_of(v) == instant_outcome(i, unit, zone@),
                None => instant_outcome(i, unit, zone@) is Overflow,
            }
        }),
{
    match instant {
        Err(e) => Some(Err(e)),
        Ok(micros) => {
            proof {
                lemma_only_nanoseconds_overflow(unit, micros as int);
            }
            match scaled(unit, micros) {
                Some(value) => Some(
                    Ok(PartitionValue::Timestamp { unit, value, tz: Some(zone.clone()) }),
                ),
                None => None,
            }
        },
    }
}

/// Whether the text is an instant that is no 64-bit number of nanoseconds, in a
/// column that counts them.
fn is_overflow(
    s: &str,
    dt: &PartitionType,
    parsed_tz: &SessionTimezone,
    session_tz: &str,
) -> (r: bool)
    requires
        parsed_tz.offset_in_day(),
    ensures
        r == (scalar_outcome(s@, dt@, parsed_tz@, session_tz@) is Overflow),
{
    match &dt.timestamp {
        Some((unit, zone)) => match zone {
            None => false,
            Some(_) => if *unit == TimeUnit::Nanosecond {
                match read_instant(s, parsed_tz, session_tz) {
                    Ok(micros) => micros < -9_223_372_036_854_775 || micros
                        > 9_223_372_036_854_775,
                    Err(_) => false,
                }
            } else {
                false
            },
        },
        None => false,
    }
}

/// Reads a text as a value of a partition column.
///
/// A timestamp with a zone is read by the offset that the text gives, or else by
/// the session's clocks. A date alone is its midnight: a column that was widened
/// from dates keeps its texts.
pub fn parse_delta_partition_scalar(
    s: &str,
    dt: &PartitionType,
    parsed_tz: &SessionTimezone,
    session_tz: &str,
) -> (r: Result<PartitionValue, String>)
    requires
        parsed_tz.offset_in_day(),
        !(scalar_outcome(s@, dt@, parsed_tz@, session_tz@) is Overflow),
    ensures
        outcome_of(r) == scalar_outcome(s@, dt@, parsed_tz@, session_tz@),
{
    match &dt.timestamp {
        Some((unit, zone)) => match zone {
            None => naive_timestamp(s, read_naive(s), *unit),
            Some(z) => match zoned_timestamp(read_instant(s, parsed_tz, session_tz), *unit, z) {
                Some(r) => r,
                None => Err(s.to_owned()),
            },
        },
        None => match parse_scalar(s, dt.name.as_str()) {
            Ok(v) => Ok(PartitionValue::Scalar(v)),
            Err(e) => Err(e),
        },
    }
}

/// Reads a text as a value of a partition column. There is no answer where an
/// instant is no 64-bit number of nanoseconds.
pub fn try_parse_delta_partition_scalar(
    s: &str,
    dt: &PartitionType,
    parsed_tz: &SessionTimezone,
    session_tz: &str,
) -> (r: Option<Result<PartitionValue, String>>)
    requires
        parsed_tz.offset_in_day(),
    ensures
        match r {
            Some(v) => outcome_of(v) == scalar_outcome(s@, dt@, parsed_tz@, session_tz@),
            None => scalar_outcome(s@, dt@, parsed_tz@, session_tz@) is Overflow,
        },
{
    if is_overflow(s, dt, parsed_tz, session_tz) {
        None
    } else {
        Some(parse_delta_partition_scalar(s, dt, parsed_tz, session_tz))
    }
}

/// The text gives an offset from UTC.
pub open spec fn gives_offset(s: Seq<char>) -> bool {
    ||| rfc3339_parse(s) is Some
    ||| instant_parse(s, "%Y-%m-%d %H:%M:%S%.f %z"@) is Some
    ||| instant_parse(s, "%Y-%m-%d %H:%M:%S %z"@) is Some
}

/// A text that gives an offset is the same value in every session, and so is every
/// text in a column that is no timestamp with a zone.
pub proof fn most_values_are_the_same_in_every_session(
    s: Seq<char>,
    dt: PartitionTypeState,
    tz: TimezoneState,
    session_tz: Seq<char>,
    other_tz: TimezoneState,
    other_session_tz: Seq<char>,
)
    requires
        gives_offset(s) || !(dt.timestamp matches Some((_, Some(_)))),
    ensures
        scalar_outcome(s, dt, tz, session_tz) == scalar_outcome(s, dt, other_tz, other_session_tz),
{
}

/// A timestamp with a zone whose text gives no offset is the instant at which the
/// session's clocks show it. Clocks at a fixed offset show it that much before UTC
/// does; a zone's clocks, at the first of the instants at which they do; a time that
/// they skip is read in UTC; and a session without a valid zone has no such value. The
/// instant is counted in the column's unit.
pub proof fn the_session_decides_a_time_without_an_offset(
    s: Seq<char>,
    name: Seq<char>,
    unit: TimeUnit,
    zone: Seq<char>,
    tz: TimezoneState,
    session_tz: Seq<char>,
)
    requires
        !gives_offset(s),
        naive_of(s) is Ok,
    ensures
        ({
            let (secs, nanos) = naive_of(s)->Ok_0;
            let dt = PartitionTypeState { name, timestamp: Some((unit, Some(zone))) };
            let at = |micros: int|
                if unit == TimeUnit::Nanosecond && !fits_i64(micros * 1000) {
                    ScalarOutcome::Overflow
                } else {
                    ScalarOutcome::Value(
                        PartitionValueState::Timestamp {
                            unit,
                            value: in_unit(unit, micros),
                            tz: Some(zone),
                        },
                    )
                };
            let utc = micros_of(secs as int, nanos as int);
            scalar_outcome(s, dt, tz, session_tz) == match tz {
                TimezoneState::Offset(offset) => if first_second() <= secs - offset
                    <= last_second() {
                    at(utc - offset * 1_000_000)
                } else {
                    at(utc)
                },
                TimezoneState::Tz(zone_name) => match zone_local(zone_name, secs, nanos) {
                    Some((first, _)) => at(first as int),
                    None => at(utc),
                },
                TimezoneState::Invalid => ScalarOutcome::Error(
                    "invalid session TZ '"@ + session_tz + "'"@,
                ),
            }
        }),
{
    let (secs, nanos) = naive_of(s)->Ok_0;
    if let TimezoneState::Offset(offset) = tz {
        assert(micros_of(secs - offset, nanos as int) == micros_of(secs as int, nanos as int)
            - offset * 1_000_000) by {
            assert((secs - offset) * 1_000_000 == secs * 1_000_000 - offset * 1_000_000)
                by (nonlinear_arith);
        }
    }
}

/// A text in a column that is no timestamp is what it reads as, the whole of it, in the
/// column's type; where it does not read as a value of the type, there is none, and the
/// reason is the reader's own.
pub proof fn a_text_is_read_whole_in_its_type(
    s: Seq<char>,
    dt: PartitionType,
    tz: TimezoneState,
    session_tz: Seq<char>,
    r: Result<PartitionValue, String>,
)
    requires
        outcome_of(r) == scalar_outcome(s, dt@, tz, session_tz),
        dt.timestamp is None,
    ensures
        scalar_outcome(s, dt@, tz, session_tz) !is Overflow,
        match scalar_parse(s, dt.name@) {
            Ok(v) => r == Ok::<PartitionValue, String>(PartitionValue::Scalar(v)),
            Err(e) => r matches Err(why) && why@ == e,
        },
{
}

/// A timestamp has the unit and the zone of its column, whatever its text.
pub proof fn a_timestamp_has_the_type_of_its_column(
    s: Seq<char>,
    dt: PartitionType,
    tz: TimezoneState,
    session_tz: Seq<char>,
    v: PartitionValue,
)
    requires
        ScalarOutcome::Value(v@) == scalar_outcome(s, dt@, tz, session_tz),
        dt.timestamp is Some,
    ensures
        ({
            let (column_unit, column_zone) = dt.timestamp->0;
            v matches PartitionValue::Timestamp { unit, value, tz: zone } && unit == column_unit
                && match column_zone {
                Some(z) => zone matches Some(y) && y@ == z@,
                None => zone is None,
            }
        }),
{
}

/// A number of microseconds in a unit is off by less than one of the unit, and towards
/// zero; in microseconds and nanoseconds it is exact.
pub proof fn a_unit_loses_less_than_one(unit: TimeUnit, micros: int)
    ensures
        unit == TimeUnit::Microsecond ==> in_unit(unit, micros) == micros,
        unit == TimeUnit::Nanosecond ==> in_unit(unit, micros) == micros * 1000,
        unit == TimeUnit::Second && micros >= 0 ==> 0 <= micros - in_unit(unit, micros) * 1_000_000
            < 1_000_000,
        unit == TimeUnit::Second && micros < 0 ==> -1_000_000 < micros - in_unit(unit, micros)
            * 1_000_000 <= 0,
        unit == TimeUnit::Millisecond && micros >= 0 ==> 0 <= micros - in_unit(unit, micros) * 1000
            < 1000,
        unit == TimeUnit::Millisecond && micros < 0 ==> -1000 < micros - in_unit(unit, micros)
            * 1000 <= 0,
{
}

/// Microseconds since 1970 are those of the seconds and of the nanoseconds, rounded down.
pub proof fn microseconds_count_from_the_epoch(secs: int, nanos: int)
    requires
        0 <= nanos,
    ensures
        0 <= nanos - (micros_of(secs, nanos) - secs * 1_000_000) * 1000 < 1000,
{
}

/// A timestamp without a zone is the time that its text shows, in every session: the
/// microseconds of that time, counted in the column's unit, or the nearest 64-bit number.
pub proof fn a_time_without_a_zone_is_what_it_shows(
    s: Seq<char>,
    dt: PartitionType,
    unit: TimeUnit,
    tz: TimezoneState,
    session_tz: Seq<char>,
    r: Result<PartitionValue, String>,
)
    requires
        outcome_of(r) == scalar_outcome(s, dt@, tz, session_tz),
        dt.timestamp == Some((unit, None::<String>)),
    ensures
        shown_time(s) matches Some((secs, nanos)) ==> (r matches Ok(
            PartitionValue::Timestamp { unit: u, value, tz: zone },
        ) && u == unit && zone is None && ({
            let exact = in_unit(unit, micros_of(secs as int, nanos as int));
            &&& i64::MIN <= exact <= i64::MAX ==> value == exact
            &&& exact > i64::MAX ==> value == i64::MAX
            &&& exact < i64::MIN ==> value == i64::MIN
        })),
        shown_time(s) is None ==> r is Err,
{
}

/// The time of day on a date that a text shows: by a format with fractions of a second,
/// else by one without, else as a date alone, which is its midnight.
pub open spec fn shown_time(s: Seq<char>) -> Option<(i64, u32)> {
    if naive_parse(s, "%Y-%m-%d %H:%M:%S%.f"@) is Ok {
        Some(naive_parse(s, "%Y-%m-%d %H:%M:%S%.f"@)->Ok_0)
    } else if naive_parse(s, "%Y-%m-%d %H:%M:%S"@) is Ok {
        Some(naive_parse(s, "%Y-%m-%d %H:%M:%S"@)->Ok_0)
    } else if date_parse(s, "%Y-%m-%d"@) is Ok {
        Some((date_parse(s, "%Y-%m-%d"@)->Ok_0, 0u32))
    } else {
        None
    }
}

/// A text is read as a time with the time of day that it shows.
pub proof fn a_text_shows_one_time(s: Seq<char>)
    ensures
        naive_of(s) is Ok <==> shown_time(s) is Some,
        shown_time(s) matches Some(p) ==> naive_of(s) == Ok::<(i64, u32), Seq<char>>(p),
{
}

/// A text that gives an offset is the instant that it names, whatever the session: by
/// RFC 3339, else by a format with fractions of a second, else by one without. It is counted
/// in the column's unit.
pub proof fn an_offset_in_a_text_decides_its_instant(
    s: Seq<char>,
    dt: PartitionType,
    unit: TimeUnit,
    zone: String,
    tz: TimezoneState,
    session_tz: Seq<char>,
    micros: i64,
)
    requires
        dt.timestamp == Some((unit, Some(zone))),
        ({
            ||| rfc3339_parse(s) == Some(micros)
            ||| rfc3339_parse(s) is None && instant_parse(s, "%Y-%m-%d %H:%M:%S%.f %z"@) == Some(
                micros,
            )
            ||| rfc3339_parse(s) is None && instant_parse(s, "%Y-%m-%d %H:%M:%S%.f %z"@) is None
                && instant_parse(s, "%Y-%m-%d %H:%M:%S %z"@) == Some(micros)
        }),
    ensures
        ({
            let exact = in_unit(unit, micros as int);
            &&& i64::MIN <= exact <= i64::MAX ==> scalar_outcome(s, dt@, tz, session_tz)
                == ScalarOutcome::Value(
                PartitionValueState::Timestamp { unit, value: exact, tz: Some(zone@) },
            )
            &&& !(i64::MIN <= exact <= i64::MAX) ==> scalar_outcome(s, dt@, tz, session_tz)
                is Overflow
        }),
{
    lemma_only_nanoseconds_overflow(unit, micros as int);
}

/// The missing value of a type is the one that the type's own library gives, unless the
/// type is a nested one with a part that may not fit.
pub proof fn a_missing_value_has_its_type(arrow_type: Seq<char>)
    ensures
        !(holds_word(arrow_type, "List"@) || holds_word(arrow_type, "Struct"@) || holds_word(
            arrow_type,
            "Map"@,
        )) ==> missing_of(arrow_type) == null_of(arrow_type),
        missing_of(arrow_type) is Ok ==> missing_of(arrow_type) == null_of(arrow_type),
{
}

/// A word stands in a text exactly where the text is something, the word and something more.
pub proof fn a_word_stands_between_what_is_around_it(
    before: Seq<char>,
    word: Seq<char>,
    behind: Seq<char>,
    s: Seq<char>,
)
    ensures
        holds_word(before + word + behind, word),
        holds_word(s, word) ==> exists|i: int|
            0 <= i && i + word.len() <= s.len() && s == #[trigger] s.take(i) + word + s.skip(
                i + word.len(),
            ),
{
    let t = before + word + behind;
    assert(t.subrange(before.len() as int, (before.len() + word.len()) as int) =~= word);
    assert(word_at(t, word, before.len() as int));
    if holds_word(s, word) {
        let i = choose|i: int| 0 <= i && #[trigger] word_at(s, word, i);
        assert(s =~= s.take(i) + s.subrange(i, i + word.len()) + s.skip(i + word.len()));
    }
}

/// A nested type has no missing value exactly where a part of it may not fit: a list of fixed
/// size, a map, a dictionary, a union, runs, or a time with a unit.
pub proof fn only_nested_types_may_have_no_missing_value(arrow_type: Seq<char>)
    ensures
        ({
            let nested = holds_word(arrow_type, "List"@) || holds_word(arrow_type, "Struct"@)
                || holds_word(arrow_type, "Map"@);
            let unfit = holds_word(arrow_type, "FixedSize"@) || holds_word(arrow_type, "Map"@)
                || holds_word(arrow_type, "Dictionary"@) || holds_word(arrow_type, "Union"@)
                || holds_word(arrow_type, "RunEndEncoded"@) || holds_word(arrow_type, "Time32"@)
                || holds_word(arrow_type, "Time64"@);
            &&& nested && unfit ==> missing_of(arrow_type) == Err::<ScalarValue, Seq<char>>(
                "no missing value of the nested type "@ + arrow_type,
            )
            &&& !(nested && unfit) ==> missing_of(arrow_type) == null_of(arrow_type)
        }),
{
}

} // verus!

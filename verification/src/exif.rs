//! Reading the time stamps that a photo's EXIF tags carry: the camera's clock
//! time, and the GPS date with its time of day written as three rationals.
use vstd::prelude::*;
use vstd::string::StringExecFns;
use chrono::{Datelike, Timelike};
use crate::text::{split_fields, split_on, string_from_chars};

verus! {

/// The tag that holds the time on the camera's clock.
#[derive(PartialEq, Eq, Structural, Clone, Copy, Debug)]
pub enum CameraTimeTag {
    /// `Exif.Image.DateTime`
    ImageDateTime,
    /// `Exif.Photo.DateTimeOriginal`
    PhotoDateTimeOriginal,
}

/// The tag to read the camera time from: `Exif.Image.DateTime` when the photo
/// has it, else `Exif.Photo.DateTimeOriginal` when it has that, else none
/// (the photo has no usable time).
pub fn camera_time_tag(has_image_date_time: bool, has_date_time_original: bool) -> (t: Option<
    CameraTimeTag,
>)
    ensures
        t == (if has_image_date_time {
            Some(CameraTimeTag::ImageDateTime)
        } else if has_date_time_original {
            Some(CameraTimeTag::PhotoDateTimeOriginal)
        } else {
            None
        }),
{
    if has_image_date_time {
        Some(CameraTimeTag::ImageDateTime)
    } else if has_date_time_original {
        Some(CameraTimeTag::PhotoDateTimeOriginal)
    } else {
        None
    }
}

impl CameraTimeTag {
    /// The tag's name as EXIF writes it.
    pub fn name(&self) -> (s: &'static str)
        ensures
            s@ == (match *self {
                CameraTimeTag::ImageDateTime => "Exif.Image.DateTime"@,
                CameraTimeTag::PhotoDateTimeOriginal => "Exif.Photo.DateTimeOriginal"@,
            }),
    {
        match *self {
            CameraTimeTag::ImageDateTime => "Exif.Image.DateTime",
            CameraTimeTag::PhotoDateTimeOriginal => "Exif.Photo.DateTimeOriginal",
        }
    }
}

/// An optional 64-bit integer as a mathematical value.
pub open spec fn opt_int(r: Option<i64>) -> Option<int> {
    match r {
        Some(x) => Some(x as int),
        None => None,
    }
}

/// An optional pair of machine integers as mathematical values.
pub open spec fn opt_pair(r: Option<(isize, isize)>) -> Option<(int, int)> {
    match r {
        Some((n, d)) => Some((n as int, d as int)),
        None => None,
    }
}

/// An optional machine integer as a mathematical value.
pub open spec fn opt_isize(r: Option<isize>) -> Option<int> {
    match r {
        Some(x) => Some(x as int),
        None => None,
    }
}

/// Where the first `/` of `s` stands, or `s.len()` when there is none.
pub open spec fn slash_pos(s: Seq<char>) -> int
    decreases s.len(),
{
    if s.len() == 0 {
        0
    } else {
        let p = slash_pos(s.drop_last());
        if p < s.len() - 1 {
            p
        } else if s.last() == '/' {
            s.len() - 1
        } else {
            s.len() as int
        }
    }
}

proof fn lemma_slash_pos_bounds(s: Seq<char>)
    ensures
        0 <= slash_pos(s) <= s.len(),
    decreases s.len(),
{
    if s.len() > 0 {
        lemma_slash_pos_bounds(s.drop_last());
    }
}

/// The numerator part of a ratio text, as `num` splits it: everything
/// before the first `/`.
pub open spec fn numer_text(s: Seq<char>) -> Seq<char> {
    s.take(slash_pos(s))
}

/// The denominator part of a ratio text, as `num` splits it: everything
/// after the first `/`, or `1` when there is no `/`.
pub open spec fn denom_text(s: Seq<char>) -> Seq<char> {
    if slash_pos(s) < s.len() {
        s.skip(slash_pos(s) + 1)
    } else {
        "1"@
    }
}

/// Whether every character of `s` is an ASCII decimal digit.
pub open spec fn all_digits(s: Seq<char>) -> bool {
    forall|i: int| 0 <= i < s.len() ==> '0' <= #[trigger] s[i] <= '9'
}

/// The number that the decimal digits `s` write.
pub open spec fn digits_value(s: Seq<char>) -> int
    decreases s.len(),
{
    if s.len() == 0 {
        0
    } else {
        digits_value(s.drop_last()) * 10 + (s.last() as int - '0' as int)
    }
}

/// What `str::parse::<isize>` makes of `text`: an optional `+` or `-` sign
/// followed by one or more decimal digits, whose value fits in `isize`;
/// `None` for anything else.
pub open spec fn parsed_isize(text: Seq<char>) -> Option<int> {
    let signed = text.len() > 0 && (text[0] == '-' || text[0] == '+');
    let body = if signed {
        text.skip(1)
    } else {
        text
    };
    let magnitude = digits_value(body);
    let v = if text.len() > 0 && text[0] == '-' {
        -magnitude
    } else {
        magnitude
    };
    if body.len() > 0 && all_digits(body) && isize::MIN <= v <= isize::MAX {
        Some(v)
    } else {
        None
    }
}

/// Calls `str::parse::<isize>`, which the standard library documents as
/// reading an optional `+` or `-` sign followed by decimal digits and failing
/// on anything else or on a value that does not fit; `parsed_isize` states
/// that.
#[verifier::external_body]
fn parse_isize(text: &str) -> (r: Option<isize>)
    ensures
        opt_isize(r) == parsed_isize(text@),
{
    text.parse::<isize>().ok()
}

/// The numerator and denominator that the two parts of a ratio text read as,
/// when both read as `isize`.
pub open spec fn ratio_parts(s: Seq<char>) -> Option<(int, int)> {
    match (parsed_isize(numer_text(s)), parsed_isize(denom_text(s))) {
        (Some(n), Some(d)) => Some((n, d)),
        _ => None,
    }
}

/// Whether reducing `n/d` overflows in `num` (and panics in a debug build):
/// a denominator of `isize::MIN` over an odd numerator, or a numerator of
/// `isize::MIN` over an odd negative denominator. In both cases the greatest
/// common divisor is 1 and making the denominator positive negates
/// `isize::MIN`.
pub open spec fn reduction_overflows(n: int, d: int) -> bool {
    (d == isize::MIN && n % 2 != 0) || (n == isize::MIN && d < 0 && d % 2 != 0)
}

/// Whether `num` reads `s` as a `Ratio<isize>` without panicking: both parts
/// read as `isize`, the denominator is not zero, and reducing the fraction
/// does not overflow.
pub open spec fn ratio_readable(s: Seq<char>) -> bool {
    ratio_parts(s) matches Some((n, d)) && d != 0 && !reduction_overflows(n, d)
}

/// What `num`'s parser for `Ratio<isize>` makes of `text` (`numer/denom`, or
/// just `numer`): `None` when it refuses the text, else the numerator and the
/// denominator of the reduced fraction.
pub uninterp spec fn parsed_ratio(text: Seq<char>) -> Option<(int, int)>;

/// Parses `text` with `FromStr` for `num::rational::Ratio<isize>` (the type
/// that `num::Rational` names) and hands back its numerator and denominator.
/// The result is the one `parsed_ratio` names. The source shows that the text
/// is split at its first `/` (the denominator being `1` when there is none),
/// that each part is read with `FromStr` for `isize`, that a zero denominator
/// is refused, and that the fraction is then reduced (divided by the greatest
/// common divisor of its parts) with a positive denominator, so that it keeps
/// the value of the fraction written. Reducing overflows, and panics in a debug build, exactly on
/// the parts that `reduction_overflows` describes; those texts are left out.
#[verifier::external_body]
fn parse_ratio(text: &str) -> (r: Option<(isize, isize)>)
    requires
        !(ratio_parts(text@) matches Some((n, d)) && reduction_overflows(n, d)),
    ensures
        opt_pair(r) == parsed_ratio(text@),
        r is Some <==> (ratio_parts(text@) matches Some((n, d)) && d != 0),
        r matches Some((n, d)) ==> d > 0,
        r matches Some((n, d)) ==> (ratio_parts(text@) matches Some((pn, pd)) && n * pd == pn * d),
{
    text.parse::<num::rational::Ratio<isize>>().ok().map(|q| (*q.numer(), *q.denom()))
}

/// The two parts of a ratio text, as `num` splits it.
pub fn ratio_text_parts(text: &str) -> (r: (String, String))
    ensures
        r.0@ == numer_text(text@),
        r.1@ == denom_text(text@),
{
    let mut numer: Vec<char> = Vec::new();
    let mut rest: Vec<char> = Vec::new();
    let mut found = false;
    for c in it: text.chars()
        invariant
            it.seq() == text@,
            found == (slash_pos(text@.take(it.index() as int)) < it.index()),
            !found ==> numer@ == text@.take(it.index() as int) && rest@.len() == 0,
            found ==> numer@ == text@.take(slash_pos(text@.take(it.index() as int)))
                && rest@ == text@.subrange(
                slash_pos(text@.take(it.index() as int)) + 1,
                it.index() as int,
            ),
    {
        let ghost i = it.index() as int;
        proof {
            lemma_slash_pos_bounds(text@.take(i));
            assert(text@.take(i + 1).drop_last() == text@.take(i));
            assert(text@.take(i + 1).last() == c);
        }
        if found {
            rest.push(c);
            assert(rest@ =~= text@.subrange(slash_pos(text@.take(i)) + 1, i + 1));
        } else if c == '/' {
            found = true;
            assert(text@.take(i) =~= text@.take(i + 1).take(i));
            assert(rest@ =~= text@.subrange(i + 1, i + 1));
        } else {
            numer.push(c);
            assert(numer@ =~= text@.take(i + 1));
        }
    }
    assert(text@.take(text@.len() as int) =~= text@);
    proof {
        lemma_slash_pos_bounds(text@);
    }
    let numer_string = string_from_chars(&numer);
    let denom_string = if found {
        assert(rest@ =~= text@.skip(slash_pos(text@) + 1));
        string_from_chars(&rest)
    } else {
        assert(numer@ =~= text@.take(slash_pos(text@)));
        String::from_str("1")
    };
    (numer_string, denom_string)
}

/// Whether `num` reads `text` as a `Ratio<isize>` without panicking.
pub fn readable_ratio(text: &str) -> (b: bool)
    ensures
        b == ratio_readable(text@),
{
    let (numer, denom) = ratio_text_parts(text);
    match (parse_isize(numer.as_str()), parse_isize(denom.as_str())) {
        (Some(n), Some(d)) => {
            let overflows = (d == isize::MIN && n % 2 != 0) || (n == isize::MIN && d < 0 && d % 2
                != 0);
            d != 0 && !overflows
        },
        _ => false,
    }
}

/// `n / d` rounded towards zero, for `d > 0`: what `Ratio::to_integer` gives.
pub open spec fn toward_zero(n: int, d: int) -> int {
    if n >= 0 {
        n / d
    } else {
        -((-n) / d)
    }
}

/// The absolute value of `a`.
pub open spec fn abs_int(a: int) -> int {
    if a < 0 {
        -a
    } else {
        a
    }
}

/// `a / b` rounded towards zero, for `b != 0`: the integer part of the
/// fraction `a/b` as written, whatever the signs of its parts.
pub open spec fn trunc_div(a: int, b: int) -> int {
    if (a < 0) != (b < 0) {
        -(abs_int(a) / abs_int(b))
    } else {
        abs_int(a) / abs_int(b)
    }
}

proof fn lemma_same_quotient(a: int, b: int, c: int, e: int)
    requires
        a >= 0,
        c >= 0,
        b > 0,
        e > 0,
        a * e == c * b,
    ensures
        a / b == c / e,
{
    let q = a / b;
    let r = a % b;
    assert(a == q * b + r && 0 <= r < b) by {
        vstd::arithmetic::div_mod::lemma_fundamental_div_mod(a, b);
        vstd::arithmetic::div_mod::lemma_mod_bound(a, b);
    }
    let t = c - q * e;
    assert(t * b == r * e) by (nonlinear_arith)
        requires
            a == q * b + r,
            a * e == c * b,
            t == c - q * e,
    ;
    assert(0 <= t < e) by (nonlinear_arith)
        requires
            t * b == r * e,
            0 <= r < b,
            b > 0,
            e > 0,
    ;
    assert(c == q * e + t);
    vstd::arithmetic::div_mod::lemma_fundamental_div_mod_converse(c, e, q, t);
}

/// The integer part of a fraction does not change when the fraction is
/// written with other parts of the same value: a reduced fraction with a
/// positive denominator has the integer part of the fraction written.
pub proof fn law_integer_part_of_equal_fractions(n: int, d: int, pn: int, pd: int)
    requires
        d > 0,
        pd != 0,
        n * pd == pn * d,
    ensures
        toward_zero(n, d) == trunc_div(pn, pd),
{
    assert(abs_int(n) * abs_int(pd) == abs_int(pn) * d) by (nonlinear_arith)
        requires
            n * pd == pn * d,
            d > 0,
    ;
    lemma_same_quotient(abs_int(n), d, abs_int(pn), abs_int(pd));
    assert((n < 0) == ((pn < 0) != (pd < 0)) || n == 0) by (nonlinear_arith)
        requires
            n * pd == pn * d,
            d > 0,
            pd != 0,
    ;
    if n == 0 {
        assert(pn == 0) by (nonlinear_arith)
            requires
                n * pd == pn * d,
                n == 0,
                d > 0,
        ;
    }
}

/// The integer part, rounded towards zero, of a fraction with a positive
/// denominator.
pub fn ratio_to_integer(n: isize, d: isize) -> (q: isize)
    requires
        d > 0,
    ensures
        q == toward_zero(n as int, d as int),
{
    n / d
}

} // verus!

verus! {

/// The integer part, rounded towards zero, of the fraction that a ratio text
/// writes (numerator over denominator, as they read), when both parts read.
pub open spec fn ratio_value(s: Seq<char>) -> int {
    match ratio_parts(s) {
        Some((pn, pd)) => trunc_div(pn, pd),
        None => 0,
    }
}

/// The integer part (rounded towards zero) of the rational number written in
/// `text`, read as `num` reads a `Rational`; `None` when `num` refuses the
/// text, and when reading it would overflow (see `reduction_overflows`).
pub fn ratio_integer(text: &str) -> (q: Option<isize>)
    ensures
        q == (if ratio_readable(text@) {
            Some(ratio_value(text@) as isize)
        } else {
            None
        }),
{
    if !readable_ratio(text) {
        return None;
    }
    match parse_ratio(text) {
        Some((n, d)) => {
            let q = ratio_to_integer(n, d);
            proof {
                let (pn, pd) = ratio_parts(text@)->0;
                law_integer_part_of_equal_fractions(n as int, d as int, pn, pd);
            }
            Some(q)
        },
        None => None,
    }
}

/// One field of a GPS time stamp (hours, minutes or seconds, written as a
/// rational such as `1234/100`): its integer part, as a `u32` (the integer
/// part cast to `u32`).
pub fn parse_next_integer_ratio(text: &str) -> (v: u32)
    requires
        ratio_readable(text@),
    ensures
        v == (ratio_value(text@) as u32),
{
    match parse_ratio(text) {
        Some((n, d)) => {
            let q = ratio_to_integer(n, d);
            proof {
                let (pn, pd) = ratio_parts(text@)->0;
                law_integer_part_of_equal_fractions(n as int, d as int, pn, pd);
            }
            q as u32
        },
        None => 0,
    }
}

/// Day 719 163 of the proleptic Gregorian calendar, counting 1 January of
/// year 1 as day 1, is 1 January 1970.
pub const UNIX_EPOCH_DAY: i64 = 719_163;

/// Seconds in a day without a leap second.
pub const SECONDS_PER_DAY: i64 = 86_400;

/// The UNIX time stamp (non-leap seconds since 1970-01-01 00:00:00 UTC) of
/// the time `seconds_of_day` seconds after midnight on day `day` of the
/// proleptic Gregorian calendar (1 January of year 1 being day 1).
pub open spec fn unix_seconds(day: int, seconds_of_day: int) -> int {
    (day - UNIX_EPOCH_DAY) * SECONDS_PER_DAY + seconds_of_day
}

/// What `chrono`'s `NaiveDateTime::parse_from_str(text, format)` makes of
/// `text`: `None` on an error, else the day of the proleptic Gregorian
/// calendar (1 January of year 1 being day 1) and the seconds since midnight.
pub uninterp spec fn parsed_datetime(text: Seq<char>, format: Seq<char>) -> Option<(int, int)>;

/// What `chrono`'s `NaiveDate::parse_from_str(text, format)` makes of `text`:
/// `None` on an error, else the day of the proleptic Gregorian calendar
/// (1 January of year 1 being day 1).
pub uninterp spec fn parsed_date(text: Seq<char>, format: Seq<char>) -> Option<int>;

/// An optional pair of a calendar day and a time of day as mathematical values.
pub open spec fn opt_day_time(r: Option<(i32, u32)>) -> Option<(int, int)> {
    match r {
        Some((d, t)) => Some((d as int, t as int)),
        None => None,
    }
}

/// An optional calendar day as a mathematical value.
pub open spec fn opt_day(r: Option<i32>) -> Option<int> {
    match r {
        Some(d) => Some(d as int),
        None => None,
    }
}

/// Calls `chrono::NaiveDateTime::parse_from_str` and reads the parsed value as
/// its day (`Datelike::num_days_from_ce` of its date) and its time of day
/// (`Timelike::num_seconds_from_midnight` of its time). The result is the one
/// `parsed_datetime` names; chrono documents the time of day as the non-leap
/// seconds past midnight, below 86 400.
#[verifier::external_body]
fn parse_naive_datetime(text: &str, format: &str) -> (r: Option<(i32, u32)>)
    ensures
        opt_day_time(r) == parsed_datetime(text@, format@),
        r matches Some((d, t)) ==> t < SECONDS_PER_DAY,
{
    chrono::NaiveDateTime::parse_from_str(text, format).ok().map(
        |t| (t.date().num_days_from_ce(), t.time().num_seconds_from_midnight()),
    )
}

/// Calls `chrono::NaiveDate::parse_from_str` and reads the parsed date as its
/// day (`Datelike::num_days_from_ce`). The result is the one `parsed_date`
/// names.
#[verifier::external_body]
fn parse_naive_date(text: &str, format: &str) -> (r: Option<i32>)
    ensures
        opt_day(r) == parsed_date(text@, format@),
{
    chrono::NaiveDate::parse_from_str(text, format).ok().map(|d| d.num_days_from_ce())
}

/// The UNIX time stamp of the camera time written in an EXIF date-time tag
/// (`%Y:%m:%d %H:%M:%S`), or `None` when chrono cannot parse it.
pub fn camera_timestamp(text: &str) -> (t: Option<i64>)
    ensures
        opt_int(t) == (match parsed_datetime(text@, "%Y:%m:%d %H:%M:%S"@) {
            Some((day, secs)) => Some(unix_seconds(day, secs)),
            None => None,
        }),
{
    match parse_naive_datetime(text, "%Y:%m:%d %H:%M:%S") {
        Some((day, secs)) => {
            let d = day as i64;
            let s = secs as i64;
            Some((d - UNIX_EPOCH_DAY) * SECONDS_PER_DAY + s)
        },
        None => None,
    }
}

/// Whether `hours:minutes:seconds` is a time of day (with no leap second).
pub open spec fn valid_time_of_day(hours: int, minutes: int, seconds: int) -> bool {
    hours < 24 && minutes < 60 && seconds < 60
}

/// The GPS time stamp that `gps_timestamp` gives for a date text and a clock.
pub open spec fn gps_stamp(date_text: Seq<char>, hours: int, minutes: int, seconds: int) -> Option<
    int,
> {
    if valid_time_of_day(hours, minutes, seconds) {
        match parsed_date(date_text, "%Y:%m:%d"@) {
            Some(day) => Some(unix_seconds(day, hours * 3600 + minutes * 60 + seconds)),
            None => None,
        }
    } else {
        None
    }
}

/// Every clock time of a parsed date has a GPS time stamp: for a date that
/// chrono parses and `hours < 24`, `minutes < 60`, `seconds < 60` (exactly
/// the times of day), the stamp is the UNIX time of that date's midnight
/// plus `3600 * hours + 60 * minutes + seconds`; any other clock has none.
pub proof fn law_gps_stamp_of_clock(date_text: Seq<char>, hours: int, minutes: int, seconds: int)
    requires
        0 <= hours,
        0 <= minutes,
        0 <= seconds,
    ensures
        valid_time_of_day(hours, minutes, seconds) <==> (hours < 24 && minutes < 60 && seconds
            < 60),
        (hours < 24 && minutes < 60 && seconds < 60) ==> gps_stamp(
            date_text,
            hours,
            minutes,
            seconds,
        ) == match parsed_date(date_text, "%Y:%m:%d"@) {
            Some(day) => Some((day - 719_163) * 86_400 + 3600 * hours + 60 * minutes + seconds),
            None => None,
        },
        !(hours < 24 && minutes < 60 && seconds < 60) ==> gps_stamp(
            date_text,
            hours,
            minutes,
            seconds,
        ) is None,
        parsed_date(date_text, "%Y:%m:%d"@) is None ==> gps_stamp(
            date_text,
            hours,
            minutes,
            seconds,
        ) is None,
{
}

/// The UNIX time stamp of the GPS time: the date written in the GPS date tag
/// (`%Y:%m:%d`) at `hours:minutes:seconds`; `None` when chrono cannot parse
/// the date or the time of day is not one.
pub fn gps_timestamp(date_text: &str, hours: u32, minutes: u32, seconds: u32) -> (t: Option<i64>)
    ensures
        opt_int(t) == gps_stamp(date_text@, hours as int, minutes as int, seconds as int),
{
    if hours >= 24 || minutes >= 60 || seconds >= 60 {
        return None;
    }
    match parse_naive_date(date_text, "%Y:%m:%d") {
        Some(day) => {
            let d = day as i64;
            let s = (hours as i64) * 3600 + (minutes as i64) * 60 + (seconds as i64);
            Some((d - UNIX_EPOCH_DAY) * SECONDS_PER_DAY + s)
        },
        None => None,
    }
}

} // verus!

verus! {

/// Whether `field` is read as a rational number (accepted by `num` without
/// overflow), and if so its integer part cast to `u32`.
pub open spec fn field_value(field: Seq<char>) -> Option<u32> {
    if ratio_readable(field) {
        Some(ratio_value(field) as u32)
    } else {
        None
    }
}

/// The clock that a GPS time stamp text gives: the values of its first three
/// space-separated fields, when there are three and each is read.
pub open spec fn gps_clock_of(text: Seq<char>) -> Option<(u32, u32, u32)> {
    let f = split_on(text, ' ');
    if f.len() >= 3 && field_value(f[0]) is Some && field_value(f[1]) is Some
        && field_value(f[2]) is Some {
        Some((field_value(f[0])->0, field_value(f[1])->0, field_value(f[2])->0))
    } else {
        None
    }
}

/// The hours, minutes and seconds of an EXIF GPS time stamp: three rationals
/// separated by single spaces, such as `14/1 5/1 3021/100`, each taken by its
/// integer part. `None` when there are fewer than three fields or one of the
/// first three is not a readable rational; fields after the third are
/// ignored.
pub fn gps_clock(text: &str) -> (r: Option<(u32, u32, u32)>)
    ensures
        r == gps_clock_of(text@),
{
    let fields = split_fields(text, ' ');
    if fields.len() < 3 {
        return None;
    }
    let h = &fields[0];
    let m = &fields[1];
    let s = &fields[2];
    if !readable_ratio(h.as_str()) || !readable_ratio(m.as_str()) || !readable_ratio(s.as_str()) {
        return None;
    }
    let hours = parse_next_integer_ratio(h.as_str());
    let minutes = parse_next_integer_ratio(m.as_str());
    let seconds = parse_next_integer_ratio(s.as_str());
    Some((hours, minutes, seconds))
}


/// Whatever the fields hold, the clock is the integer parts of the first
/// three fields as `num` reads them, zero included, whenever there are three
/// fields and each is a rational that `num` reads; otherwise there is none.
pub proof fn law_gps_clock_reads_integer_parts(text: Seq<char>)
    ensures
        ({
            let f = split_on(text, ' ');
            &&& (f.len() >= 3 && ratio_readable(f[0]) && ratio_readable(f[1]) && ratio_readable(
                f[2],
            )) ==> gps_clock_of(text) == Some(
                (
                    ratio_value(f[0]) as u32,
                    ratio_value(f[1]) as u32,
                    ratio_value(f[2]) as u32,
                ),
            )
            &&& !(f.len() >= 3 && ratio_readable(f[0]) && ratio_readable(f[1]) && ratio_readable(
                f[2],
            )) ==> gps_clock_of(text) is None
        }),
{
}

/// The decimal digit for `d < 10`.
pub open spec fn digit_char(d: nat) -> char {
    seq!['0', '1', '2', '3', '4', '5', '6', '7', '8', '9'][d as int]
}

/// The decimal numeral of `n`, without leading zeros.
pub open spec fn decimal(n: nat) -> Seq<char>
    decreases n,
{
    if n < 10 {
        seq![digit_char(n)]
    } else {
        decimal(n / 10).push(digit_char(n % 10))
    }
}

/// A whole number written as a rational over 1, as GPS receivers write the
/// hours and minutes: `n/1`.
pub open spec fn whole_ratio(n: nat) -> Seq<char> {
    decimal(n) + seq!['/', '1']
}

proof fn lemma_digit_char(d: nat)
    requires
        d < 10,
    ensures
        '0' <= digit_char(d) <= '9',
        digit_char(d) as int - '0' as int == d,
{
    let t = seq!['0', '1', '2', '3', '4', '5', '6', '7', '8', '9'];
    assert(t[0] == '0' && t[1] == '1' && t[2] == '2' && t[3] == '3' && t[4] == '4');
    assert(t[5] == '5' && t[6] == '6' && t[7] == '7' && t[8] == '8' && t[9] == '9');
}

proof fn lemma_decimal(n: nat)
    ensures
        decimal(n).len() > 0,
        all_digits(decimal(n)),
        digits_value(decimal(n)) == n,
    decreases n,
{
    if n < 10 {
        lemma_digit_char(n);
        let s = decimal(n);
        assert(s.drop_last() =~= Seq::<char>::empty());
        assert(digits_value(Seq::<char>::empty()) == 0);
        assert(s.last() == digit_char(n));
    } else {
        lemma_decimal(n / 10);
        lemma_digit_char(n % 10);
        let s = decimal(n);
        assert(s.drop_last() =~= decimal(n / 10));
        assert(s.last() == digit_char(n % 10));
        assert forall|i: int| 0 <= i < s.len() implies '0' <= #[trigger] s[i] <= '9' by {
            if i < s.len() - 1 {
                assert(s[i] == decimal(n / 10)[i]);
            }
        }
    }
}

proof fn lemma_slash_pos_none(s: Seq<char>)
    requires
        !s.contains('/'),
    ensures
        slash_pos(s) == s.len(),
    decreases s.len(),
{
    if s.len() > 0 {
        assert(!s.drop_last().contains('/')) by {
            if s.drop_last().contains('/') {
                let k = choose|k: int| 0 <= k < s.drop_last().len() && s.drop_last()[k] == '/';
                assert(s[k] == '/');
            }
        }
        assert(s.last() != '/') by {
            assert(s[s.len() - 1] == s.last());
        }
        lemma_slash_pos_none(s.drop_last());
    }
}

proof fn lemma_slash_pos_first(a: Seq<char>, rest: Seq<char>)
    requires
        !a.contains('/'),
    ensures
        slash_pos(a + seq!['/'] + rest) == a.len(),
    decreases rest.len(),
{
    let s = a + seq!['/'] + rest;
    if rest.len() == 0 {
        assert(s.drop_last() =~= a);
        assert(s.last() == '/');
        lemma_slash_pos_none(a);
    } else {
        lemma_slash_pos_first(a, rest.drop_last());
        assert(s.drop_last() =~= a + seq!['/'] + rest.drop_last());
    }
}

proof fn lemma_whole_ratio(n: nat)
    requires
        n <= i32::MAX,
    ensures
        ratio_parts(whole_ratio(n)) == Some((n as int, 1int)),
        ratio_readable(whole_ratio(n)),
        ratio_value(whole_ratio(n)) == n,
        !whole_ratio(n).contains(' '),
{
    let d = decimal(n);
    let f = whole_ratio(n);
    lemma_decimal(n);
    assert(!d.contains('/')) by {
        if d.contains('/') {
            let k = choose|k: int| 0 <= k < d.len() && d[k] == '/';
            assert('0' <= d[k] <= '9');
        }
    }
    assert(f =~= d + seq!['/'] + seq!['1']);
    lemma_slash_pos_first(d, seq!['1']);
    assert(numer_text(f) =~= d);
    assert(denom_text(f) =~= seq!['1']);
    assert(d[0] != '-' && d[0] != '+') by {
        assert('0' <= d[0] <= '9');
    }
    assert(parsed_isize(d) == Some(n as int));
    let one = seq!['1'];
    assert(one.drop_last() =~= Seq::<char>::empty());
    assert(digits_value(Seq::<char>::empty()) == 0);
    assert(one.last() == '1');
    assert(digits_value(one) == 1);
    assert(all_digits(one));
    assert(parsed_isize(one) == Some(1int));
    assert(ratio_parts(f) == Some((n as int, 1int)));
    assert(abs_int(n as int) == n && abs_int(1) == 1);
    assert((n as int) / 1 == n) by (nonlinear_arith);
    assert(trunc_div(n as int, 1) == n);
    assert(!f.contains(' ')) by {
        if f.contains(' ') {
            let k = choose|k: int| 0 <= k < f.len() && f[k] == ' ';
            if k < d.len() {
                assert('0' <= d[k] <= '9');
            }
        }
    }
}

/// A GPS clock written as whole numbers, `h/1 m/1 s/1`, is read back as
/// `(h, m, s)`, zero hours, minutes or seconds included.
pub proof fn law_gps_clock_of_whole_numbers(h: nat, m: nat, s: nat)
    requires
        h < 60,
        m < 60,
        s < 60,
    ensures
        gps_clock_of(whole_ratio(h) + seq![' '] + whole_ratio(m) + seq![' '] + whole_ratio(s))
            == Some((h as u32, m as u32, s as u32)),
{
    lemma_whole_ratio(h);
    lemma_whole_ratio(m);
    lemma_whole_ratio(s);
    crate::text::lemma_split_three(whole_ratio(h), whole_ratio(m), whole_ratio(s), ' ');
}

} // verus!

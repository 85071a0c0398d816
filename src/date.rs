//! Dates taken from a record's storage path, and the approximate day counter used for aging.
use vstd::prelude::*;
use vstd::string::*;
use crate::text::{all_digits, digit_value, digits_value, decimal_u32, is_ascii_digit};

verus! {

/// A `/YYYY/MM/DD/` path segment, with the three numbers as capture groups.
pub const DATE_SEGMENT_PATTERN: &'static str = "/([0-9]{4})/([0-9]{2})/([0-9]{2})/";

/// Largest magnitude of a year, month, day or day count that the day counter accepts.
pub const DAY_INPUT_LIMIT: i64 = 1_000_000_000_000;

/// A `/YYYY/MM/DD/` segment (ASCII digits) starts at index `i` of `p`.
pub open spec fn date_segment_at(p: Seq<char>, i: int) -> bool {
    &&& 0 <= i && i + 12 <= p.len()
    &&& p[i] == '/' && p[i + 5] == '/' && p[i + 8] == '/' && p[i + 11] == '/'
    &&& all_digits(p.subrange(i + 1, i + 5))
    &&& all_digits(p.subrange(i + 6, i + 8))
    &&& all_digits(p.subrange(i + 9, i + 11))
}

/// The first index at or after `i` where a date segment starts.
pub open spec fn first_date_segment(p: Seq<char>, i: int) -> Option<int>
    decreases p.len() - i,
{
    if i < 0 || i + 12 > p.len() {
        None
    } else if date_segment_at(p, i) {
        Some(i)
    } else {
        first_date_segment(p, i + 1)
    }
}

/// The (year, month, day) of the first date segment of a path, if it has one.
pub open spec fn path_date(p: Seq<char>) -> Option<(int, int, int)> {
    match first_date_segment(p, 0) {
        Some(i) => Some(
            (
                digits_value(p.subrange(i + 1, i + 5)) as int,
                digits_value(p.subrange(i + 6, i + 8)) as int,
                digits_value(p.subrange(i + 9, i + 11)) as int,
            ),
        ),
        None => None,
    }
}

/// The date of the first date segment of a path as `YYYY-MM-DD`, if it has one.
pub open spec fn path_date_text(p: Seq<char>) -> Option<Seq<char>> {
    match first_date_segment(p, 0) {
        Some(i) => Some(
            p.subrange(i + 1, i + 5) + seq!['-'] + p.subrange(i + 6, i + 8) + seq!['-']
                + p.subrange(i + 9, i + 11),
        ),
        None => None,
    }
}

/// A date as one number, `YYYYMMDD`, which orders as the `YYYY-MM-DD` text does.
pub open spec fn date_rank_of(t: (int, int, int)) -> int {
    t.0 * 10000 + t.1 * 100 + t.2
}

/// Truncating division by four, as Rust's `/` does on signed integers.
pub open spec fn quarter_toward_zero(a: int) -> int {
    if a >= 0 {
        a / 4
    } else {
        -((-a) / 4)
    }
}

/// The approximate day counter: 365 days a year, a leap day every four years, 30-day months.
pub open spec fn approx_days(year: int, month: int, day: int) -> int {
    (year - 1970) * 365 + quarter_toward_zero(year - 1969) + (month - 1) * 30 + day
}

/// Age in days of the record stored at path `p`, on day `today`.
pub open spec fn path_age(p: Seq<char>, today: int) -> Option<int> {
    match path_date(p) {
        Some(t) => Some(today - approx_days(t.0, t.1, t.2)),
        None => None,
    }
}

/// Relies on `regex::Regex::new` and `regex::Regex::captures`: with `DATE_SEGMENT_PATTERN`,
/// the leftmost match is the first date segment, and its groups are the three digit runs.
#[verifier::external_body]
fn capture_date_segment(pattern: &str, path: &str) -> (r: Option<(String, String, String)>)
    requires
        pattern@ == DATE_SEGMENT_PATTERN@,
    ensures
        r is None <==> first_date_segment(path@, 0) is None,
        r is Some ==> r.unwrap().0@ == path@.subrange(
            first_date_segment(path@, 0).unwrap() + 1,
            first_date_segment(path@, 0).unwrap() + 5,
        ),
        r is Some ==> r.unwrap().1@ == path@.subrange(
            first_date_segment(path@, 0).unwrap() + 6,
            first_date_segment(path@, 0).unwrap() + 8,
        ),
        r is Some ==> r.unwrap().2@ == path@.subrange(
            first_date_segment(path@, 0).unwrap() + 9,
            first_date_segment(path@, 0).unwrap() + 11,
        ),
{
    let re = regex::Regex::new(pattern).unwrap();
    match re.captures(path) {
        Some(c) => {
            let (_, [y, m, d]) = c.extract();
            Some((y.to_string(), m.to_string(), d.to_string()))
        },
        None => None,
    }
}

pub open spec fn pow10(n: nat) -> nat
    decreases n,
{
    if n == 0 {
        1
    } else {
        10 * pow10((n - 1) as nat)
    }
}

proof fn lemma_digits_value_below(s: Seq<char>)
    requires
        all_digits(s),
    ensures
        digits_value(s) < pow10(s.len()),
    decreases s.len(),
{
    if s.len() > 0 {
        assert(all_digits(s.drop_last())) by {
            assert forall|k: int| 0 <= k < s.len() - 1 implies is_ascii_digit(
                #[trigger] s.drop_last()[k],
            ) by {
                assert(s.drop_last()[k] == s[k]);
            }
        }
        assert(is_ascii_digit(s[s.len() - 1]));
        lemma_digits_value_below(s.drop_last());
        assert(digit_value(s.last()) <= 9);
    }
}

/// The date written in the first `/YYYY/MM/DD/` segment of a path.
pub struct FileDate {
    pub year: i64,
    pub month: i64,
    pub day: i64,
    /// The date as `YYYY-MM-DD`, zero-padded as in the path.
    pub text: String,
}

/// The date of the first `/YYYY/MM/DD/` segment of `path`, as numbers and as text.
pub fn file_date_of_path(path: &str) -> (r: Option<FileDate>)
    ensures
        r is Some <==> path_date(path@) is Some,
        r is Some ==> path_date(path@) == Some(
            (r.unwrap().year as int, r.unwrap().month as int, r.unwrap().day as int),
        ),
        r is Some ==> path_date_text(path@) == Some(r.unwrap().text@),
        r is Some ==> 0 <= r.unwrap().year <= 9999 && 0 <= r.unwrap().month <= 99 && 0
            <= r.unwrap().day <= 99,
{
    let caps = capture_date_segment(DATE_SEGMENT_PATTERN, path);
    match caps {
        None => None,
        Some((y, m, d)) => {
            let ghost i = first_date_segment(path@, 0).unwrap();
            proof {
                lemma_first_date_segment_found(path@, 0);
                lemma_digits_value_below(y@);
                lemma_digits_value_below(m@);
                lemma_digits_value_below(d@);
                assert(pow10(0) == 1);
                assert(pow10(1) == 10);
                assert(pow10(2) == 100);
                assert(pow10(3) == 1000);
                assert(pow10(4) == 10000);
                reveal_strlit("-");
            }
            let yv = decimal_u32(y.as_str());
            let mv = decimal_u32(m.as_str());
            let dv = decimal_u32(d.as_str());
            let text = y.concat("-").concat(m.as_str()).concat("-").concat(d.as_str());
            assert(text@ =~= path_date_text(path@).unwrap());
            match (yv, mv, dv) {
                (Some(a), Some(b), Some(c)) => Some(
                    FileDate { year: a as i64, month: b as i64, day: c as i64, text },
                ),
                _ => None,
            }
        },
    }
}

/// The (year, month, day) written in the first `/YYYY/MM/DD/` segment of `path`, if any.
pub fn extract_date_from_path(path: &str) -> (r: Option<(i64, i64, i64)>)
    ensures
        r is Some <==> path_date(path@) is Some,
        r is Some ==> path_date(path@) == Some(
            (r.unwrap().0 as int, r.unwrap().1 as int, r.unwrap().2 as int),
        ),
{
    match file_date_of_path(path) {
        Some(fd) => Some((fd.year, fd.month, fd.day)),
        None => None,
    }
}

proof fn lemma_first_date_segment_found(p: Seq<char>, i: int)
    requires
        first_date_segment(p, i) is Some,
    ensures
        date_segment_at(p, first_date_segment(p, i).unwrap()),
        i <= first_date_segment(p, i).unwrap(),
        forall|j: int| i <= j < first_date_segment(p, i).unwrap() ==> !date_segment_at(p, j),
    decreases p.len() - i,
{
    if !(i < 0 || i + 12 > p.len()) && !date_segment_at(p, i) {
        lemma_first_date_segment_found(p, i + 1);
    }
}

proof fn lemma_first_date_segment_at(p: Seq<char>, i: int, n: int)
    requires
        0 <= i <= n,
        date_segment_at(p, n),
        forall|j: int| i <= j < n ==> !date_segment_at(p, j),
    ensures
        first_date_segment(p, i) == Some(n),
    decreases n - i,
{
    if i < n {
        lemma_first_date_segment_at(p, i + 1, n);
    }
}

proof fn lemma_no_date_segment(p: Seq<char>, i: int)
    requires
        0 <= i,
        forall|j: int| i <= j ==> !date_segment_at(p, j),
    ensures
        first_date_segment(p, i) is None,
    decreases p.len() - i,
{
    if i + 12 <= p.len() {
        lemma_no_date_segment(p, i + 1);
    }
}

/// A `/YYYY/MM/DD/` segment written into a path, after a prefix in which no such segment
/// starts, is the date read from the path; and a path with no such segment has no date.
pub proof fn lemma_path_date_embedded(prefix: Seq<char>, segment: Seq<char>, suffix: Seq<char>)
    requires
        segment.len() == 12,
        date_segment_at(segment, 0),
        forall|j: int| 0 <= j < prefix.len() ==> !date_segment_at(prefix + segment + suffix, j),
    ensures
        path_date(prefix + segment + suffix) == Some(
            (
                digits_value(segment.subrange(1, 5)) as int,
                digits_value(segment.subrange(6, 8)) as int,
                digits_value(segment.subrange(9, 11)) as int,
            ),
        ),
        forall|p: Seq<char>| (forall|j: int| !date_segment_at(p, j)) ==> #[trigger] path_date(p) is None,
{
    let p = prefix + segment + suffix;
    let n = prefix.len() as int;
    assert(p.subrange(n, n + 12) =~= segment);
    assert(p.subrange(n + 1, n + 5) =~= segment.subrange(1, 5));
    assert(p.subrange(n + 6, n + 8) =~= segment.subrange(6, 8));
    assert(p.subrange(n + 9, n + 11) =~= segment.subrange(9, 11));
    assert(date_segment_at(p, n));
    lemma_first_date_segment_at(p, 0, n);
    assert forall|q: Seq<char>| (forall|j: int| !date_segment_at(q, j)) implies #[trigger] path_date(
        q,
    ) is None by {
        lemma_no_date_segment(q, 0);
    }
}

/// The approximate number of days from 1970-01-01 to the given date.
pub fn days_since_epoch(year: i64, month: i64, day: i64) -> (r: i64)
    requires
        -DAY_INPUT_LIMIT <= year <= DAY_INPUT_LIMIT,
        -DAY_INPUT_LIMIT <= month <= DAY_INPUT_LIMIT,
        -DAY_INPUT_LIMIT <= day <= DAY_INPUT_LIMIT,
    ensures
        r == approx_days(year as int, month as int, day as int),
{
    let since = year - 1969;
    let leap = if since >= 0 {
        since / 4
    } else {
        -((-since) / 4)
    };
    (year - 1970) * 365 + leap + (month - 1) * 30 + day
}

/// The day number of a Unix time given in seconds.
pub fn epoch_day(secs: u64) -> (r: i64)
    ensures
        r == secs / 86400,
{
    (secs / 86400) as i64
}

/// Age in days, on day `today`, of the record stored at `path`; `None` where the path holds no
/// date.
pub fn path_age_days(path: &str, today: i64) -> (r: Option<i64>)
    requires
        -DAY_INPUT_LIMIT <= today <= DAY_INPUT_LIMIT,
    ensures
        r is Some <==> path_age(path@, today as int) is Some,
        r is Some ==> path_age(path@, today as int) == Some(r.unwrap() as int),
{
    match file_date_of_path(path) {
        None => None,
        Some(fd) => Some(today - days_since_epoch(fd.year, fd.month, fd.day)),
    }
}

/// Whether the path holds a date whose age on day `today` is at most `max_age` days: the test
/// a record passes before it is read at all.
pub fn path_within_age(path: &str, today: i64, max_age: i64) -> (r: bool)
    requires
        -DAY_INPUT_LIMIT <= today <= DAY_INPUT_LIMIT,
    ensures
        r == (path_age(path@, today as int) is Some && path_age(path@, today as int).unwrap()
            <= max_age),
{
    match path_age_days(path, today) {
        Some(age) => age <= max_age,
        None => false,
    }
}

} // verus!

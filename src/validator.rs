use vstd::prelude::*;

verus! {

/// Whether a character is in one of Unicode's number categories.
pub uninterp spec fn numeric_char(c: char) -> bool;

/// What `str::trim` leaves of a string.
pub uninterp spec fn trim_of(s: Seq<char>) -> Seq<char>;

/// Whether `text` matches the regular expression `pattern`.
pub uninterp spec fn regex_match(pattern: Seq<char>, text: Seq<char>) -> bool;

/// Relies on `char::is_numeric`: whether the character is in a Unicode
/// number category (Nd, Nl, No); the ASCII digits are.
#[verifier::external_body]
fn char_is_numeric(c: char) -> (r: bool)
    ensures
        r == numeric_char(c),
        '0' <= c <= '9' ==> r,
{
    c.is_numeric()
}

/// Relies on `str::trim`: the string without leading and trailing
/// whitespace; an empty string stays empty.
#[verifier::external_body]
pub(crate) fn trim(s: &str) -> (r: &str)
    ensures
        r@ == trim_of(s@),
        s@.len() == 0 ==> r@.len() == 0,
{
    s.trim()
}

/// Relies on `regex::Regex::new` and `Regex::is_match`: whether `text`
/// matches `pattern` (always a valid pattern here).
#[verifier::external_body]
pub(crate) fn is_match(pattern: &str, text: &str) -> (r: bool)
    ensures
        r == regex_match(pattern@, text@),
{
    regex::Regex::new(pattern).map(|re| re.is_match(text)).unwrap_or(false)
}

pub open spec fn is_leap_year(y: int) -> bool {
    (y % 4 == 0 && y % 100 != 0) || y % 400 == 0
}

pub open spec fn days_in_month(y: int, m: int) -> int {
    if m == 2 {
        if is_leap_year(y) {
            29
        } else {
            28
        }
    } else if m == 4 || m == 6 || m == 9 || m == 11 {
        30
    } else {
        31
    }
}

/// Whether year `y`, month `m`, day `d` is a day of the Gregorian calendar.
pub open spec fn is_calendar_date(y: int, m: int, d: int) -> bool {
    1 <= m <= 12 && 1 <= d <= days_in_month(y, m)
}

/// Relies on chrono's `NaiveDate::from_ymd_opt`: for a year that chrono
/// represents, a date exists exactly when the month is 1 to 12 and the day
/// is within the month (with Gregorian leap years).
#[verifier::external_body]
fn date_exists(y: i32, m: u32, d: u32) -> (r: bool)
    requires
        0 <= y <= 9999,
    ensures
        r == is_calendar_date(y as int, m as int, d as int),
{
    chrono::NaiveDate::from_ymd_opt(y, m, d).is_some()
}

pub open spec fn is_digit(c: char) -> bool {
    '0' <= c <= '9'
}

pub open spec fn all_digits(s: Seq<char>) -> bool {
    forall|i: int| 0 <= i < s.len() ==> is_digit(#[trigger] s[i])
}

pub open spec fn digit_value(c: char) -> int {
    (c as u32) - ('0' as u32)
}

/// The number that a string of decimal digits writes.
pub open spec fn digits_value(s: Seq<char>) -> int
    decreases s.len(),
{
    if s.len() == 0 {
        0
    } else {
        digits_value(s.drop_last()) * 10 + digit_value(s.last())
    }
}

pub open spec fn all_numeric(s: Seq<char>) -> bool {
    forall|i: int| 0 <= i < s.len() ==> numeric_char(#[trigger] s[i])
}

/// Whether a rating (difficulty or priority) is a whole number from 0 to 10
/// written in decimal digits.
pub open spec fn valid_rating(s: Seq<char>) -> bool {
    s.len() > 0 && all_digits(s) && digits_value(s) <= 10
}

pub(crate) proof fn lemma_digits_value_nonneg(s: Seq<char>)
    requires
        all_digits(s),
    ensures
        digits_value(s) >= 0,
    decreases s.len(),
{
    if s.len() > 0 {
        assert(all_digits(s.drop_last())) by {
            assert forall|i: int| 0 <= i < s.drop_last().len() implies is_digit(
                #[trigger] s.drop_last()[i],
            ) by {
                assert(s.drop_last()[i] == s[i]);
            }
        }
        lemma_digits_value_nonneg(s.drop_last());
        assert(is_digit(s[s.len() - 1]));
    }
}

/// Whether every character of a non-empty string is numeric.
pub fn is_numeric(string: &str) -> (r: bool)
    ensures
        r == (string@.len() > 0 && all_numeric(string@)),
{
    let n = string.unicode_len();
    if n == 0 {
        return false;
    }
    let mut i: usize = 0;
    while i < n
        invariant
            n == string@.len(),
            i <= n,
            forall|j: int| 0 <= j < i ==> numeric_char(#[trigger] string@[j]),
        decreases n - i,
    {
        if !char_is_numeric(string.get_char(i)) {
            return false;
        }
        i = i + 1;
    }
    true
}

/// The value of a string of digits, or `None` when a character is not
/// numeric or not a decimal digit; values above `cap` are reported as
/// `cap + 1`.
fn small_number(s: &str, cap: u32) -> (r: Option<u32>)
    requires
        cap < 1000,
    ensures
        r is None <==> !all_digits(s@),
        r matches Some(v) ==> (digits_value(s@) <= cap ==> v == digits_value(s@)) && (
        digits_value(s@) > cap ==> v == cap + 1),
{
    let n = s.unicode_len();
    let mut v: u32 = 0;
    let mut i: usize = 0;
    while i < n
        invariant
            n == s@.len(),
            i <= n,
            cap < 1000,
            all_digits(s@.take(i as int)),
            digits_value(s@.take(i as int)) <= cap ==> v == digits_value(s@.take(i as int)),
            digits_value(s@.take(i as int)) > cap ==> v == cap + 1,
        decreases n - i,
    {
        let c = s.get_char(i);
        let ghost t = s@.take(i + 1);
        assert(t.drop_last() =~= s@.take(i as int));
        if !char_is_numeric(c) || !('0' <= c && c <= '9') {
            assert(!all_digits(s@)) by {
                assert(!is_digit(s@[i as int]));
            }
            return None;
        }
        assert(all_digits(t)) by {
            assert forall|j: int| 0 <= j < t.len() implies is_digit(#[trigger] t[j]) by {
                if j < i {
                    assert(t[j] == s@.take(i as int)[j]);
                }
            }
        }
        proof {
            lemma_digits_value_nonneg(s@.take(i as int));
        }
        let d = (c as u32) - ('0' as u32);
        if v > cap {
            v = cap + 1;
        } else {
            let w = v * 10 + d;
            v = if w > cap {
                cap + 1
            } else {
                w
            };
        }
        i = i + 1;
    }
    assert(s@.take(n as int) =~= s@);
    Some(v)
}

/// Whether a difficulty rating is a whole number from 0 to 10.
pub fn validate_difficulty(difficulty: &str) -> (r: bool)
    ensures
        r == valid_rating(difficulty@),
{
    validate_rating(difficulty)
}

/// Whether a priority rating is a whole number from 0 to 10.
pub fn validate_priority(priority: &str) -> (r: bool)
    ensures
        r == valid_rating(priority@),
{
    validate_rating(priority)
}

fn validate_rating(s: &str) -> (r: bool)
    ensures
        r == valid_rating(s@),
{
    if s.unicode_len() == 0 {
        return false;
    }
    match small_number(s, 10) {
        None => false,
        Some(v) => v <= 10,
    }
}

/// The shape of a time of day: two digits, a colon, two digits.
pub const TIME_PATTERN: &'static str = "^[0-9]{2}:[0-9]{2}$";

/// The shape of a date: day, month and year, separated by slashes.
pub const DATE_PATTERN: &'static str = r"^[0-9]{2}/[0-9]{2}/[0-9]{4}$";

/// The shape of a duration: a whole number and a unit of minutes, hours or
/// days, possibly after spaces.
pub const DURATION_PATTERN: &'static str =
    "^[0-9]+(minutes| +minutes|min| +min|m| +m|h| +h|hours| +hours|d| +d|days| +days)$";

/// The number that the digits of `t` from `i` to `j` write.
pub open spec fn field(t: Seq<char>, i: int, j: int) -> int {
    digits_value(t.subrange(i, j))
}

pub open spec fn digits_at(t: Seq<char>, i: int, j: int) -> bool {
    all_digits(t.subrange(i, j))
}

/// Whether `t` is `HH:MM` with an hour from 0 to 23 and a minute from 0 to
/// 59.
pub open spec fn time_ok(t: Seq<char>) -> bool {
    t.len() == 5 && digits_at(t, 0, 2) && t[2] == ':' && digits_at(t, 3, 5) && field(t, 0, 2) <= 23
        && field(t, 3, 5) <= 59
}

/// Whether `t` is `DD/MM/YYYY` naming a day of the Gregorian calendar in
/// 1970 or later.
pub open spec fn date_ok(t: Seq<char>) -> bool {
    &&& t.len() == 10
    &&& digits_at(t, 0, 2) && t[2] == '/' && digits_at(t, 3, 5) && t[5] == '/' && digits_at(t, 6, 10)
    &&& field(t, 6, 10) >= 1970
    &&& is_calendar_date(field(t, 6, 10), field(t, 3, 5), field(t, 0, 2))
}

/// The value of the digits of `t` from `i` to `j`, when they are all
/// digits.
fn read_field(t: &str, i: usize, j: usize) -> (r: Option<u32>)
    requires
        i <= j <= t@.len(),
        j - i <= 4,
    ensures
        r is None <==> !digits_at(t@, i as int, j as int),
        r matches Some(v) ==> v == field(t@, i as int, j as int) && v < 10000,
{
    let ghost f = t@.subrange(i as int, j as int);
    let mut v: u32 = 0;
    let mut k: usize = i;
    assert(f.take(0) =~= Seq::<char>::empty());
    while k < j
        invariant
            i <= k <= j <= t@.len(),
            j - i <= 4,
            f == t@.subrange(i as int, j as int),
            all_digits(f.take(k - i)),
            v == digits_value(f.take(k - i)),
            v < 10000,
            (k - i) <= 4,
            v < pow10((k - i) as nat),
        decreases j - k,
    {
        let c = t.get_char(k);
        assert(f[k - i] == c);
        let ghost g = f.take(k - i + 1);
        assert(g.drop_last() =~= f.take(k - i));
        if !('0' <= c && c <= '9') {
            assert(!is_digit(f[k - i]));
            return None;
        }
        assert(all_digits(g)) by {
            assert forall|m: int| 0 <= m < g.len() implies is_digit(#[trigger] g[m]) by {
                if m < k - i {
                    assert(g[m] == f.take(k - i)[m]);
                }
            }
        }
        v = v * 10 + ((c as u32) - ('0' as u32));
        k = k + 1;
    }
    assert(f.take(j - i) =~= f);
    Some(v)
}

/// Ten to the power `n`, for `n` up to four.
pub open spec fn pow10(n: nat) -> int {
    if n == 0 {
        1
    } else if n == 1 {
        10
    } else if n == 2 {
        100
    } else if n == 3 {
        1000
    } else {
        10000
    }
}

/// Whether a time is empty (which stands for the present time) or `HH:MM`
/// naming a time of day.
pub fn validate_time(time_string: &str) -> (r: bool)
    ensures
        r == (trim_of(time_string@).len() == 0 || (regex_match(TIME_PATTERN@, trim_of(time_string@))
            && time_ok(trim_of(time_string@)))),
{
    let t = trim(time_string);
    let n = t.unicode_len();
    if n == 0 {
        return true;
    }
    if !is_match(TIME_PATTERN, t) || n != 5 || t.get_char(2) != ':' {
        return false;
    }
    match (read_field(t, 0, 2), read_field(t, 3, 5)) {
        (Some(h), Some(m)) => h <= 23 && m <= 59,
        _ => false,
    }
}

/// Whether a date is empty (which stands for today) or `DD/MM/YYYY` naming a
/// day in 1970 or later.
pub fn validate_date(date_string: &str) -> (r: bool)
    ensures
        r == (trim_of(date_string@).len() == 0 || (regex_match(DATE_PATTERN@, trim_of(date_string@))
            && date_ok(trim_of(date_string@)))),
{
    let t = trim(date_string);
    let n = t.unicode_len();
    if n == 0 {
        return true;
    }
    if !is_match(DATE_PATTERN, t) || n != 10 || t.get_char(2) != '/' || t.get_char(5) != '/' {
        return false;
    }
    match (read_field(t, 0, 2), read_field(t, 3, 5), read_field(t, 6, 10)) {
        (Some(d), Some(m), Some(y)) => {
            if y < 1970 {
                false
            } else {
                date_exists(y as i32, m, d)
            }
        },
        _ => false,
    }
}

/// Whether a duration is empty (which stands for none) or a whole number of
/// minutes, hours or days.
pub fn validate_duration(duration_string: &str) -> (r: bool)
    ensures
        r == (trim_of(duration_string@).len() == 0 || regex_match(
            DURATION_PATTERN@,
            trim_of(duration_string@),
        )),
{
    let t = trim(duration_string);
    if t.unicode_len() == 0 {
        return true;
    }
    is_match(DURATION_PATTERN, t)
}

/// Day, month and year of `DD/MM/YYYY`, when `t` has that shape.
pub open spec fn date_fields(t: Seq<char>) -> Option<(int, int, int)> {
    if t.len() == 10 && digits_at(t, 0, 2) && t[2] == '/' && digits_at(t, 3, 5) && t[5] == '/'
        && digits_at(t, 6, 10) {
        Some((field(t, 0, 2), field(t, 3, 5), field(t, 6, 10)))
    } else {
        None
    }
}

/// Hour and minute of `HH:MM`, when `t` has that shape.
pub open spec fn time_fields(t: Seq<char>) -> Option<(int, int)> {
    if t.len() == 5 && digits_at(t, 0, 2) && t[2] == ':' && digits_at(t, 3, 5) {
        Some((field(t, 0, 2), field(t, 3, 5)))
    } else {
        None
    }
}

/// Day, month and year of a date written `DD/MM/YYYY` (around spaces);
/// `None` for any other shape, the empty input included.
pub fn parse_into_date(input: &str) -> (r: Option<(u32, u32, u32)>)
    ensures
        match date_fields(trim_of(input@)) {
            Some((d, m, y)) => r == Some((d as u32, m as u32, y as u32)),
            None => r is None,
        },
{
    let t = trim(input);
    if t.unicode_len() != 10 || t.get_char(2) != '/' || t.get_char(5) != '/' {
        return None;
    }
    match (read_field(t, 0, 2), read_field(t, 3, 5), read_field(t, 6, 10)) {
        (Some(d), Some(m), Some(y)) => Some((d, m, y)),
        _ => None,
    }
}

/// Hour and minute of a time written `HH:MM` (around spaces); `None` for
/// any other shape, the empty input included.
pub fn parse_into_time(input: &str) -> (r: Option<(u32, u32)>)
    ensures
        match time_fields(trim_of(input@)) {
            Some((h, m)) => r == Some((h as u32, m as u32)),
            None => r is None,
        },
{
    let t = trim(input);
    if t.unicode_len() != 5 || t.get_char(2) != ':' {
        return None;
    }
    match (read_field(t, 0, 2), read_field(t, 3, 5)) {
        (Some(h), Some(m)) => Some((h, m)),
        _ => None,
    }
}

/// The shape of a duration given in days.
pub const DAYS_PATTERN: &'static str = "^[0-9]+(d| +d|days| +days)$";

/// Whether a span is a whole number of days (such spans run to the end of
/// their last day).
pub fn span_in_days(span: &str) -> (r: bool)
    ensures
        r == regex_match(DAYS_PATTERN@, span@),
{
    is_match(DAYS_PATTERN, span)
}

} // verus!

use vstd::prelude::*;

use crate::validator::{
    all_digits, digit_value, digits_value, is_digit, lemma_digits_value_nonneg, trim, trim_of,
};

verus! {

/// What `str::to_lowercase` makes of a string.
pub uninterp spec fn lower_of(s: Seq<char>) -> Seq<char>;

/// Relies on `str::to_lowercase`: the string in lower case.
#[verifier::external_body]
fn lowercase(s: &str) -> (r: String)
    ensures
        r@ == lower_of(s@),
{
    s.to_lowercase()
}

/// The largest number of seconds that a duration holds (chrono's
/// `TimeDelta` counts milliseconds in an `i64`).
pub const MAX_DURATION_SECONDS: i64 = 9223372036854775;

/// The characters of `s` before the first `c`, or all of them.
pub open spec fn before(s: Seq<char>, c: char) -> Seq<char>
    decreases s.len(),
{
    if s.len() == 0 {
        s
    } else if s[0] == c {
        Seq::empty()
    } else {
        seq![s[0]] + before(s.skip(1), c)
    }
}

/// The whole number that `s` writes, with an optional sign, as `i64`'s
/// parsing reads it (leaving out its range).
pub open spec fn signed_value(s: Seq<char>) -> Option<int> {
    if s.len() > 0 && (s[0] == '+' || s[0] == '-') {
        let rest = s.skip(1);
        if rest.len() > 0 && all_digits(rest) {
            Some(if s[0] == '-' {
                -digits_value(rest)
            } else {
                digits_value(rest)
            })
        } else {
            None
        }
    } else if s.len() > 0 && all_digits(s) {
        Some(digits_value(s))
    } else {
        None
    }
}

/// The unit that a lower-case duration names, by the one unit letter it
/// holds: days, hours or minutes, with its length in seconds.
pub open spec fn unit_of(l: Seq<char>) -> Option<(char, int)> {
    let (d, h, m) = (l.contains('d'), l.contains('h'), l.contains('m'));
    if d && !h && !m {
        Some(('d', 86400))
    } else if !d && h && !m {
        Some(('h', 3600))
    } else if !d && !h && m {
        Some(('m', 60))
    } else {
        None
    }
}

/// The seconds that a duration such as `15m`, `4 h` or `2 days` stands for;
/// empty input stands for none. `None` when the input names no single unit,
/// its number does not parse, or the duration is out of range.
pub open spec fn duration_value(s: Seq<char>) -> Option<int> {
    if trim_of(s).len() == 0 {
        Some(0)
    } else {
        let l = lower_of(s);
        match unit_of(l) {
            Some((c, unit)) => match signed_value(trim_of(before(l, c))) {
                Some(n) => if -MAX_DURATION_SECONDS <= n * unit <= MAX_DURATION_SECONDS {
                    Some(n * unit)
                } else {
                    None
                },
                None => None,
            },
            None => None,
        }
    }
}

proof fn lemma_before_take(s: Seq<char>, c: char, p: int)
    requires
        0 <= p <= s.len(),
        forall|k: int| 0 <= k < p ==> s[k] != c,
        p == s.len() || s[p] == c,
    ensures
        before(s, c) == s.take(p),
    decreases s.len(),
{
    if s.len() > 0 {
        if p == 0 {
            assert(s.take(0) =~= Seq::<char>::empty());
        } else {
            let t = s.skip(1);
            assert forall|k: int| 0 <= k < p - 1 implies t[k] != c by {
                assert(t[k] == s[k + 1]);
            }
            if p < s.len() {
                assert(t[p - 1] == s[p]);
            }
            lemma_before_take(t, c, p - 1);
            assert(seq![s[0]] + t.take(p - 1) =~= s.take(p));
        }
    }
}

/// Whether `c` occurs in `s`, and where first.
fn find_char(s: &str, c: char) -> (r: usize)
    ensures
        r <= s@.len(),
        forall|k: int| 0 <= k < r ==> s@[k] != c,
        r < s@.len() ==> s@[r as int] == c,
{
    let n = s.unicode_len();
    let mut i: usize = 0;
    while i < n
        invariant
            n == s@.len(),
            i <= n,
            forall|k: int| 0 <= k < i ==> s@[k] != c,
        decreases n - i,
    {
        if s.get_char(i) == c {
            return i;
        }
        i = i + 1;
    }
    n
}

proof fn lemma_digits_value_step(s: Seq<char>, i: int)
    requires
        0 <= i < s.len(),
    ensures
        digits_value(s.take(i + 1)) == digits_value(s.take(i)) * 10 + digit_value(s[i]),
{
    assert(s.take(i + 1).drop_last() =~= s.take(i));
}

/// The value of the digits of `s` from `from` on, capped at `cap + 1`;
/// `None` when one of them is not a digit.
fn capped_digits(s: &str, from: usize, cap: u64) -> (r: Option<u64>)
    requires
        from <= s@.len(),
        cap < 0x1000_0000_0000_0000,
    ensures
        r is None <==> !all_digits(s@.skip(from as int)),
        r matches Some(v) ==> (digits_value(s@.skip(from as int)) <= cap ==> v == digits_value(
            s@.skip(from as int),
        )) && (digits_value(s@.skip(from as int)) > cap ==> v == cap + 1),
{
    let ghost t = s@.skip(from as int);
    let n = s.unicode_len();
    let mut v: u64 = 0;
    let mut i: usize = from;
    assert(t.take(0) =~= Seq::<char>::empty());
    while i < n
        invariant
            n == s@.len(),
            from <= i <= n,
            t == s@.skip(from as int),
            cap < 0x1000_0000_0000_0000,
            all_digits(t.take(i - from)),
            digits_value(t.take(i - from)) <= cap ==> v == digits_value(t.take(i - from)),
            digits_value(t.take(i - from)) > cap ==> v == cap + 1,
        decreases n - i,
    {
        let c = s.get_char(i);
        assert(t[i - from] == c);
        if !('0' <= c && c <= '9') {
            assert(!is_digit(t[i - from]));
            return None;
        }
        proof {
            lemma_digits_value_step(t, i - from);
            lemma_digits_value_nonneg(t.take(i - from));
        }
        assert(all_digits(t.take(i - from + 1))) by {
            assert forall|m: int| 0 <= m < i - from + 1 implies is_digit(#[trigger] t.take(i - from + 1)[m]) by {
                if m < i - from {
                    assert(t.take(i - from + 1)[m] == t.take(i - from)[m]);
                }
            }
        }
        let d = (c as u64) - ('0' as u64);
        if v > cap {
            v = cap + 1;
        } else {
            let w = v * 10 + d;
            v = if w > cap {
                cap + 1
            } else {
                w
            };
        }
        i = i + 1;
    }
    assert(t.take(n - from) =~= t);
    Some(v)
}

/// The seconds that a duration such as `15m`, `4 h` or `2 days` stands for:
/// the number before the one unit letter (`d`, `h` or `m`, in any case)
/// times the unit; an empty duration is none.
pub fn parse_into_duration(input: &str) -> (r: Option<i64>)
    ensures
        r matches Some(v) ==> duration_value(input@) == Some(v as int),
        r is None ==> duration_value(input@) is None,
{
    if trim(input).unicode_len() == 0 {
        return Some(0);
    }
    let lower = lowercase(input);
    let l = lower.as_str();
    let n = l.unicode_len();
    let pd = find_char(l, 'd');
    let ph = find_char(l, 'h');
    let pm = find_char(l, 'm');
    proof {
        if pd < n {
            assert(l@.contains('d'));
        }
        if ph < n {
            assert(l@.contains('h'));
        }
        if pm < n {
            assert(l@.contains('m'));
        }
    }
    let (p, unit): (usize, i64) = if pd < n && ph == n && pm == n {
        (pd, 86400)
    } else if pd == n && ph < n && pm == n {
        (ph, 3600)
    } else if pd == n && ph == n && pm < n {
        (pm, 60)
    } else {
        return None;
    };
    let ghost c = if unit == 86400 {
        'd'
    } else if unit == 3600 {
        'h'
    } else {
        'm'
    };
    assert(unit_of(l@) == Some((c, unit as int)));
    proof {
        lemma_before_take(l@, c, p as int);
    }
    let prefix = l.substring_char(0, p);
    let t = trim(prefix);
    let tn = t.unicode_len();
    if tn == 0 {
        return None;
    }
    let first = t.get_char(0);
    let negative = first == '-';
    let from: usize = if first == '+' || first == '-' {
        1
    } else {
        0
    };
    if from == 1 && tn == 1 {
        assert(t@.skip(1).len() == 0);
        return None;
    }
    let cap: u64 = 9223372036854775;
    let digits = match capped_digits(t, from, cap) {
        Some(v) => v,
        None => {
            return None;
        },
    };
    if from == 0 {
        assert(t@.skip(0) =~= t@);
    }
    proof {
        lemma_digits_value_nonneg(t@.skip(from as int));
    }
    if digits > cap / (unit as u64) {
        assert(digits_value(t@.skip(from as int)) * unit > MAX_DURATION_SECONDS) by (nonlinear_arith)
            requires
                digits_value(t@.skip(from as int)) >= digits,
                digits > cap / (unit as u64),
                cap == MAX_DURATION_SECONDS,
                unit >= 60,
        ;
        return None;
    }
    assert(digits * unit <= MAX_DURATION_SECONDS) by (nonlinear_arith)
        requires
            digits <= cap / (unit as u64),
            cap == MAX_DURATION_SECONDS,
            unit >= 60,
    ;
    let magnitude = (digits as i64) * unit;
    if negative {
        Some(-magnitude)
    } else {
        Some(magnitude)
    }
}

} // verus!

use vstd::prelude::*;
use vstd::string::StringExecFns;

verus! {

pub open spec fn min3(a: int, b: int, c: int) -> int {
    if a <= b && a <= c {
        a
    } else if b <= c {
        b
    } else {
        c
    }
}

/// The least number of single-character insertions, deletions and
/// substitutions that turn `a` into `b`.
pub open spec fn edit_distance(a: Seq<char>, b: Seq<char>) -> int
    decreases a.len() + b.len(),
{
    if a.len() == 0 {
        b.len() as int
    } else if b.len() == 0 {
        a.len() as int
    } else {
        min3(
            edit_distance(a.drop_last(), b) + 1,
            edit_distance(a, b.drop_last()) + 1,
            edit_distance(a.drop_last(), b.drop_last()) + (if a.last() == b.last() {
                0int
            } else {
                1int
            }),
        )
    }
}

proof fn lemma_edit_distance_bounds(a: Seq<char>, b: Seq<char>)
    ensures
        0 <= edit_distance(a, b) <= (if a.len() >= b.len() {
            a.len() as int
        } else {
            b.len() as int
        }),
    decreases a.len() + b.len(),
{
    if a.len() > 0 && b.len() > 0 {
        lemma_edit_distance_bounds(a.drop_last(), b);
        lemma_edit_distance_bounds(a, b.drop_last());
        lemma_edit_distance_bounds(a.drop_last(), b.drop_last());
    }
}

/// The characters of a string.
fn chars_of(s: &str) -> (r: Vec<char>)
    ensures
        r@ == s@,
{
    let n = s.unicode_len();
    let mut out: Vec<char> = Vec::new();
    let mut i: usize = 0;
    while i < n
        invariant
            n == s@.len(),
            i <= n,
            out@ == s@.take(i as int),
        decreases n - i,
    {
        out.push(s.get_char(i));
        assert(out@ =~= s@.take(i + 1));
        i = i + 1;
    }
    assert(s@.take(n as int) =~= s@);
    out
}

/// The edit distance between two strings, computed one column at a time.
pub fn levenshtein_distance(s1: &str, s2: &str) -> (r: usize)
    requires
        s1@.len() < usize::MAX,
        s2@.len() < usize::MAX,
    ensures
        r == edit_distance(s1@, s2@),
{
    let v1 = chars_of(s1);
    let v2 = chars_of(s2);
    let n1 = v1.len();
    let n2 = v2.len();
    if n1 == 0 {
        return n2;
    }
    if n2 == 0 {
        return n1;
    }
    let ghost a = v1@;
    let ghost b = v2@;
    let mut column: Vec<usize> = Vec::new();
    let mut y: usize = 0;
    while y <= n1
        invariant
            n1 == a.len(),
            n1 < usize::MAX,
            y <= n1 + 1,
            column@.len() == y,
            forall|k: int| 0 <= k < y ==> column@[k] == edit_distance(a.take(k), b.take(0)),
        decreases n1 + 1 - y,
    {
        assert(b.take(0).len() == 0);
        column.push(y);
        y = y + 1;
    }
    let mut x: usize = 1;
    while x <= n2
        invariant
            n1 == a.len(),
            n2 == b.len(),
            a == v1@,
            b == v2@,
            n1 > 0,
            n1 < usize::MAX,
            n2 < usize::MAX,
            1 <= x <= n2 + 1,
            column@.len() == n1 + 1,
            forall|k: int| 0 <= k <= n1 ==> column@[k] == edit_distance(a.take(k), b.take(x - 1)),
        decreases n2 + 1 - x,
    {
        assert(a.take(0).len() == 0);
        column.set(0, x);
        let mut lastdiag: usize = x - 1;
        let mut y: usize = 1;
        while y <= n1
            invariant
                n1 == a.len(),
                n2 == b.len(),
                a == v1@,
                b == v2@,
                n1 < usize::MAX,
                n2 < usize::MAX,
                1 <= x <= n2,
                1 <= y <= n1 + 1,
                column@.len() == n1 + 1,
                forall|k: int| 0 <= k < y ==> column@[k] == edit_distance(a.take(k), b.take(x as int)),
                forall|k: int|
                    y <= k <= n1 ==> column@[k] == edit_distance(a.take(k), b.take(x - 1)),
                lastdiag == edit_distance(a.take(y - 1), b.take(x - 1)),
            decreases n1 + 1 - y,
        {
            let ghost ta = a.take(y as int);
            let ghost tb = b.take(x as int);
            assert(ta.drop_last() =~= a.take(y - 1));
            assert(tb.drop_last() =~= b.take(x - 1));
            proof {
                lemma_edit_distance_bounds(ta, b.take(x - 1));
                lemma_edit_distance_bounds(a.take(y - 1), tb);
                lemma_edit_distance_bounds(a.take(y - 1), b.take(x - 1));
            }
            let olddiag = column[y];
            let del = column[y] + 1;
            let ins = column[y - 1] + 1;
            let sub = lastdiag + if v1[y - 1] == v2[x - 1] {
                0
            } else {
                1
            };
            let best = if del <= ins && del <= sub {
                del
            } else if ins <= sub {
                ins
            } else {
                sub
            };
            column.set(y, best);
            lastdiag = olddiag;
            y = y + 1;
        }
        x = x + 1;
    }
    assert(a.take(n1 as int) =~= a);
    assert(b.take(n2 as int) =~= b);
    column[n1]
}

/// The commands that a mistyped one is compared against.
pub open spec fn known_commands() -> Seq<Seq<char>> {
    seq![
        "add"@,
        "cal"@,
        "clear"@,
        "duration"@,
        "edit"@,
        "help"@,
        "list"@,
        "listcal"@,
        "raw"@,
        "remove"@,
        "removecal"@,
        "set"@,
        "sort"@,
        "until"@,
        "quit"@,
        "write"@,
    ]
}

/// Walking `cmds` in order: the least edit distance from `s` met so far,
/// starting from `limit`, and the index of the first command at a distance
/// below all those before it (and below `limit`).
pub open spec fn closest_command(s: Seq<char>, cmds: Seq<Seq<char>>, limit: int) -> (int, Option<int>)
    decreases cmds.len(),
{
    if cmds.len() == 0 {
        (limit, None)
    } else {
        let (m, b) = closest_command(s, cmds.drop_last(), limit);
        let d = edit_distance(s, cmds.last());
        if d < m {
            (d, Some(cmds.len() - 1))
        } else {
            (m, b)
        }
    }
}

proof fn lemma_closest_command_index(s: Seq<char>, cmds: Seq<Seq<char>>, limit: int)
    ensures
        closest_command(s, cmds, limit).1 matches Some(i) ==> 0 <= i < cmds.len(),
    decreases cmds.len(),
{
    if cmds.len() > 0 {
        lemma_closest_command_index(s, cmds.drop_last(), limit);
    }
}

/// The command to suggest for an unknown one: the first known command at
/// the least edit distance, if that distance is below the length of the
/// input in bytes.
pub fn handle_unknown_command(s: &str) -> (r: Option<&'static str>)
    ensures
        s@.len() < usize::MAX ==> (match closest_command(
            s@,
            known_commands(),
            s.len() as int,
        ).1 {
            Some(i) => r matches Some(c) && c@ == known_commands()[i],
            None => r is None,
        }),
{
    let command_list: Vec<&'static str> = vec![
        "add",
        "cal",
        "clear",
        "duration",
        "edit",
        "help",
        "list",
        "listcal",
        "raw",
        "remove",
        "removecal",
        "set",
        "sort",
        "until",
        "quit",
        "write",
    ];
    let ghost cmds = command_list@.map_values(|c: &str| c@);
    assert(cmds =~= known_commands());
    proof {
        reveal_strlit("add");
        reveal_strlit("cal");
        reveal_strlit("clear");
        reveal_strlit("duration");
        reveal_strlit("edit");
        reveal_strlit("help");
        reveal_strlit("list");
        reveal_strlit("listcal");
        reveal_strlit("raw");
        reveal_strlit("remove");
        reveal_strlit("removecal");
        reveal_strlit("set");
        reveal_strlit("sort");
        reveal_strlit("until");
        reveal_strlit("quit");
        reveal_strlit("write");
    }
    let n = s.unicode_len();
    if n == usize::MAX {
        // No string holds that many characters.
        return None;
    }
    let limit = s.len();
    let mut best: Option<&'static str> = None;
    let ghost mut best_index: Option<int> = None;
    let mut min_distance: usize = limit;
    let mut i: usize = 0;
    while i < command_list.len()
        invariant
            n == s@.len(),
            n < usize::MAX,
            limit == s.len(),
            forall|j: int| 0 <= j < cmds.len() ==> (#[trigger] cmds[j]).len() < 10,
            cmds == command_list@.map_values(|c: &str| c@),
            i <= command_list.len(),
            (min_distance as int, best_index) == closest_command(s@, cmds.take(i as int), limit as int),
            match best_index {
                Some(j) => 0 <= j < cmds.len() && (best matches Some(c) && c@ == cmds[j]),
                None => best is None,
            },
        decreases command_list.len() - i,
    {
        let command = command_list[i];
        assert(cmds.take(i + 1).drop_last() =~= cmds.take(i as int));
        assert(cmds[i as int] == command@);
        proof {
            lemma_edit_distance_bounds(s@, command@);
        }
        let distance = levenshtein_distance(s, command);
        if distance < min_distance {
            best = Some(command);
            proof {
                best_index = Some(i as int);
            }
            min_distance = distance;
        }
        i = i + 1;
    }
    assert(cmds.take(command_list.len() as int) =~= cmds);
    best
}

/// The decimal writing of `n`, with a minus sign when it is negative.
pub open spec fn decimal_of(n: int) -> Seq<char>
    decreases (if n < 0 {
        -n + 1
    } else {
        n
    }),
{
    if n < 0 {
        seq!['-'] + decimal_of(-n)
    } else if n < 10 {
        seq![('0' as u32 + n) as char]
    } else {
        decimal_of(n / 10) + decimal_of(n % 10)
    }
}

/// Relies on `i64::to_string` (the `Display` of integers): the number in
/// decimal, with a leading minus sign when it is negative.
#[verifier::external_body]
fn decimal(n: i64) -> (r: String)
    ensures
        r@ == decimal_of(n as int),
{
    n.to_string()
}

/// The last second of the day of `d`, with timestamps counted in a time
/// zone that has no offset (days are 86,400 seconds).
pub fn round_to_full_day(d: i64) -> (r: i64)
    requires
        i64::MIN + 86400 <= d <= i64::MAX - 86400,
    ensures
        r == d - d % 86400 + 86399,
{
    let into_day = d.checked_rem_euclid(86400).unwrap();
    d - into_day + 86399
}

/// Whole minutes, hours and days as chrono's `Duration` counts them:
/// truncated toward zero.
pub open spec fn whole(secs: int, unit: int) -> int {
    if secs >= 0 {
        secs / unit
    } else {
        -((-secs) / unit)
    }
}

/// How a duration is shown: seconds below a minute; minutes and seconds
/// below an hour; hours and minutes below a day; days, hours and minutes
/// from then on.
pub open spec fn duration_text(secs: int) -> Seq<char> {
    let m = whole(secs, 60);
    let h = whole(secs, 3600);
    let d = whole(secs, 86400);
    if secs < 60 {
        decimal_of(secs) + "s"@
    } else if m < 60 {
        decimal_of(m) + "m "@ + decimal_of(secs - m * 60) + "s"@
    } else if h < 24 {
        decimal_of(h) + "h "@ + decimal_of(m - h * 60) + "m"@
    } else {
        decimal_of(d) + "d "@ + decimal_of(h - d * 24) + "h "@ + decimal_of(
            m - (h - d * 24) * 60 - d * 24 * 60,
        ) + "m"@
    }
}

/// A duration in seconds, written for reading.
pub fn duration_fmt(duration: i64) -> (r: String)
    ensures
        r@ == duration_text(duration as int),
{
    if duration < 60 {
        return decimal(duration).concat("s");
    }
    let minutes = duration / 60;
    let hours = duration / 3600;
    let days = duration / 86400;
    if minutes < 60 {
        decimal(minutes).concat("m ").concat(decimal(duration - minutes * 60).as_str()).concat("s")
    } else if hours < 24 {
        decimal(hours).concat("h ").concat(decimal(minutes - hours * 60).as_str()).concat("m")
    } else {
        decimal(days).concat("d ").concat(decimal(hours - days * 24).as_str()).concat("h ").concat(
            decimal(minutes - (hours - days * 24) * 60 - days * 24 * 60).as_str(),
        ).concat("m")
    }
}

/// What `str::to_uppercase` makes of a string.
pub uninterp spec fn upper_of(s: Seq<char>) -> Seq<char>;

/// Relies on `str::to_uppercase`: the string in upper case.
#[verifier::external_body]
fn uppercase(s: &str) -> (r: String)
    ensures
        r@ == upper_of(s@),
{
    s.to_uppercase()
}

/// The string with its first letter, an ASCII character, in upper case.
pub fn uppercase_first_letter(s: &str) -> (r: String)
    requires
        s@.len() > 0,
        (s@[0] as u32) < 128,
    ensures
        r@ == upper_of(s@.take(1)) + s@.skip(1),
{
    let n = s.unicode_len();
    let first = s.substring_char(0, 1);
    let rest = s.substring_char(1, n);
    uppercase(first).concat(rest)
}

} // verus!

use vstd::prelude::*;
use vstd::string::StringExecFns;

use crate::calendar::{deadlines_view, events_view, Calendar, CalendarView};
use crate::calendar_index::{activated, count_active, count_named, CalendarIndex, CalmarError};
use crate::calendar_ref::{CalendarReference, ReferenceView};
use crate::config::Config;
use crate::deadline::{Deadline, DeadlineView};
use crate::event::{Event, EventView, SortKey};
use crate::expand::{sort_events, sort_in_order};
use crate::seq_facts::lemma_filter_step;
use crate::validator::{regex_match, trim, trim_of, validate_duration, DURATION_PATTERN};

verus! {

/// Makes the one calendar named `name` the active one. No calendar of that
/// name, several of them, or an index that already has more than one
/// active calendar, is an error, and the index stays as it was.
pub fn set(index: &mut CalendarIndex, name: String) -> (r: Result<(), CalmarError>)
    ensures
        count_named(old(index)@, name@) == 0 ==> r == Err::<(), CalmarError>(CalmarError::NotFound),
        count_named(old(index)@, name@) > 1 ==> r == Err::<(), CalmarError>(
            CalmarError::AmbiguousName { e: count_named(old(index)@, name@) as usize },
        ),
        count_named(old(index)@, name@) == 1 && count_active(old(index)@) > 1 ==> r == Err::<
            (),
            CalmarError,
        >(CalmarError::ActiveCalendarCount { e: count_active(old(index)@) as usize }),
        r is Err ==> final(index)@ == old(index)@,
        r is Ok <==> (count_named(old(index)@, name@) == 1 && count_active(old(index)@) <= 1),
        r is Ok ==> final(index)@ == activated(old(index)@, name@),
{
    let named = index.num_named(&name);
    if named == 0 {
        return Err(CalmarError::NotFound);
    }
    if named > 1 {
        return Err(CalmarError::AmbiguousName { e: named });
    }
    let active = index.number_of_active_calendars();
    if active > 1 {
        return Err(CalmarError::ActiveCalendarCount { e: active });
    }
    index.set_active(name);
    Ok(())
}

pub open spec fn names_view(v: Seq<String>) -> Seq<Seq<char>> {
    v.map_values(|s: String| s@)
}

pub open spec fn not_listed(names: Seq<Seq<char>>) -> spec_fn(EventView) -> bool {
    |e: EventView| !names.contains(e.name)
}

/// Whether `name` is one of `names`.
fn listed(names: &Vec<String>, name: &String) -> (r: bool)
    ensures
        r == names_view(names@).contains(name@),
{
    let mut i: usize = 0;
    while i < names.len()
        invariant
            i <= names.len(),
            forall|j: int| 0 <= j < i ==> names@[j]@ != name@,
        decreases names.len() - i,
    {
        if names[i] == *name {
            assert(names_view(names@)[i as int] == name@);
            return true;
        }
        i = i + 1;
    }
    assert(!names_view(names@).contains(name@)) by {
        if names_view(names@).contains(name@) {
            let j = choose|j: int| 0 <= j < names@.len() && names_view(names@)[j] == name@;
            assert(names@[j]@ == name@);
        }
    }
    false
}

/// Removes from the calendar every event whose name is one of `names`.
pub fn remove(calendar: &mut Calendar, names: &Vec<String>)
    ensures
        final(calendar)@ == (CalendarView {
            events: old(calendar)@.events.filter(not_listed(names_view(names@))),
            ..old(calendar)@
        }),
{
    let ghost s = calendar@.events;
    let ghost keep = not_listed(names_view(names@));
    let mut kept: Vec<Event> = Vec::new();
    let mut i: usize = 0;
    while i < calendar.events().len()
        invariant
            i <= calendar@.events.len(),
            s == calendar@.events,
            calendar@ == old(calendar)@,
            keep == not_listed(names_view(names@)),
            events_view(kept@) == s.take(i as int).filter(keep),
        decreases calendar@.events.len() - i,
    {
        let e = &calendar.events()[i];
        proof {
            lemma_filter_step(s, i as int, keep);
        }
        assert(s[i as int] == e@);
        if !listed(names, &e.name()) {
            let ghost before = events_view(kept@);
            kept.push(e.copy());
            assert(events_view(kept@) =~= before.push(e@));
        }
        i = i + 1;
    }
    assert(s.take(s.len() as int) =~= s);
    calendar.set_events(kept);
}

/// The positions in `s` that hold `name`, in increasing order.
pub open spec fn positions_of(s: Seq<Seq<char>>, name: Seq<char>) -> Seq<int>
    decreases s.len(),
{
    if s.len() == 0 {
        Seq::empty()
    } else if s.last() == name {
        positions_of(s.drop_last(), name).push(s.len() - 1)
    } else {
        positions_of(s.drop_last(), name)
    }
}

/// The positions of the items named `name`: the candidates among which the
/// user picks one when several share the name.
pub fn positions_named(names: &Vec<String>, name: &String) -> (r: Vec<usize>)
    ensures
        r@.map_values(|i: usize| i as int) == positions_of(names_view(names@), name@),
{
    let ghost s = names_view(names@);
    let mut out: Vec<usize> = Vec::new();
    let mut i: usize = 0;
    assert(s.take(0) =~= Seq::<Seq<char>>::empty());
    assert(out@.map_values(|i: usize| i as int) =~= Seq::<int>::empty());
    while i < names.len()
        invariant
            i <= names.len(),
            s == names_view(names@),
            out@.map_values(|i: usize| i as int) == positions_of(s.take(i as int), name@),
        decreases names.len() - i,
    {
        let ghost t = s.take(i + 1);
        assert(t.drop_last() =~= s.take(i as int));
        assert(t.last() == names@[i as int]@);
        if names[i] == *name {
            let ghost before = out@;
            out.push(i);
            assert(out@.map_values(|i: usize| i as int) =~= before.map_values(|i: usize| i as int).push(
                i as int,
            ));
        }
        i = i + 1;
    }
    assert(s.take(names.len() as int) =~= s);
    out
}

pub open spec fn present_refs(s: Seq<ReferenceView>, present: Seq<bool>) -> Seq<ReferenceView>
    decreases s.len(),
{
    if s.len() == 0 || present.len() != s.len() {
        Seq::empty()
    } else if present.last() {
        present_refs(s.drop_last(), present.drop_last()).push(s.last())
    } else {
        present_refs(s.drop_last(), present.drop_last())
    }
}

/// Drops the references whose file is gone: `present[i]` tells whether the
/// file of the `i`-th reference exists. Returns how many were dropped.
pub fn update_index(index: &mut CalendarIndex, present: &Vec<bool>) -> (r: usize)
    requires
        present@.len() == old(index)@.len(),
    ensures
        final(index)@ == present_refs(old(index)@, present@),
        r == old(index)@.len() - final(index)@.len(),
{
    let ghost s = index@;
    let mut kept: Vec<CalendarReference> = Vec::new();
    let mut i: usize = 0;
    let n = index.calendars().len();
    assert(s.take(0) =~= Seq::<ReferenceView>::empty());
    assert(kept@.map_values(|x: CalendarReference| x@) =~= Seq::<ReferenceView>::empty());
    while i < n
        invariant
            n == s.len(),
            present@.len() == n,
            i <= n,
            s == index@,
            kept@.map_values(|x: CalendarReference| x@) == present_refs(
                s.take(i as int),
                present@.take(i as int),
            ),
            kept@.len() <= i,
        decreases n - i,
    {
        assert(s.take(i + 1).drop_last() =~= s.take(i as int));
        assert(present@.take(i + 1).drop_last() =~= present@.take(i as int));
        let r = &index.calendars()[i];
        assert(s[i as int] == r@);
        if present[i] {
            let ghost before = kept@;
            kept.push(r.copy());
            assert(kept@.map_values(|x: CalendarReference| x@) =~= before.map_values(
                |x: CalendarReference| x@,
            ).push(r@));
        }
        i = i + 1;
    }
    assert(s.take(n as int) =~= s);
    assert(present@.take(n as int) =~= present@);
    let removed = n - kept.len();
    *index.calendars_mut() = kept;
    removed
}

/// The path typed by the user, or the default one when nothing was typed.
pub fn default_or_custom_save_path(input: String, default_path: &String) -> (r: String)
    ensures
        trim_of(input@).len() == 0 ==> r@ == default_path@,
        trim_of(input@).len() != 0 ==> r@ == input@,
{
    if trim(input.as_str()).unicode_len() == 0 {
        return default_path.clone();
    }
    input
}

/// What is wrong with a configuration, when something is.
#[derive(Debug, PartialEq, Eq, Structural)]
pub enum ConfigError {
    DateFormat,
    TimeFormat,
    CalendarSpan,
    PromptColor,
}

/// The colours that a prompt may have.
pub open spec fn permitted_colors() -> Seq<Seq<char>> {
    seq![
        "black"@,
        "red"@,
        "green"@,
        "yellow"@,
        "blue"@,
        "magenta"@,
        "cyan"@,
        "white"@,
        "bright_black"@,
        "bright_red"@,
        "bright_green"@,
        "bright_yellow"@,
        "bright_blue"@,
        "bright_magenta"@,
        "bright_cyan"@,
        "bright_white"@,
    ]
}

/// Checks the settings in order: the date format, the time format, the
/// default span of a listing (a valid duration), the prompt's colour. The
/// first that is wrong is reported.
pub fn check_config(config: &Config) -> (r: Result<(), ConfigError>)
    ensures
        config.date_format@ != "DD/MM/YYYY"@ ==> r == Err::<(), ConfigError>(ConfigError::DateFormat),
        config.date_format@ == "DD/MM/YYYY"@ && config.time_format@ != "HH:MM"@ ==> r == Err::<
            (),
            ConfigError,
        >(ConfigError::TimeFormat),
        config.date_format@ == "DD/MM/YYYY"@ && config.time_format@ == "HH:MM"@ ==> (r == Err::<
            (),
            ConfigError,
        >(ConfigError::CalendarSpan) <==> !(trim_of(config.default_calendar_span@).len() == 0
            || regex_match(DURATION_PATTERN@, trim_of(config.default_calendar_span@)))),
        r is Ok <==> (config.date_format@ == "DD/MM/YYYY"@ && config.time_format@ == "HH:MM"@ && (
        trim_of(config.default_calendar_span@).len() == 0 || regex_match(
            DURATION_PATTERN@,
            trim_of(config.default_calendar_span@),
        )) && permitted_colors().contains(config.prompt_color@)),
{
    if !(config.date_format == String::from_str("DD/MM/YYYY")) {
        return Err(ConfigError::DateFormat);
    }
    if !(config.time_format == String::from_str("HH:MM")) {
        return Err(ConfigError::TimeFormat);
    }
    if !validate_duration(config.default_calendar_span.as_str()) {
        return Err(ConfigError::CalendarSpan);
    }
    let colors: Vec<&'static str> = vec![
        "black",
        "red",
        "green",
        "yellow",
        "blue",
        "magenta",
        "cyan",
        "white",
        "bright_black",
        "bright_red",
        "bright_green",
        "bright_yellow",
        "bright_blue",
        "bright_magenta",
        "bright_cyan",
        "bright_white",
    ];
    let ghost cs = colors@.map_values(|c: &str| c@);
    assert(cs =~= permitted_colors());
    let mut i: usize = 0;
    while i < colors.len()
        invariant
            i <= colors.len(),
            cs == colors@.map_values(|c: &str| c@),
            cs == permitted_colors(),
            forall|j: int| 0 <= j < i ==> cs[j] != config.prompt_color@,
            config.date_format@ == "DD/MM/YYYY"@,
            config.time_format@ == "HH:MM"@,
            trim_of(config.default_calendar_span@).len() == 0 || regex_match(
                DURATION_PATTERN@,
                trim_of(config.default_calendar_span@),
            ),
        decreases colors.len() - i,
    {
        assert(cs[i as int] == colors@[i as int]@);
        if config.prompt_color == String::from_str(colors[i]) {
            assert(permitted_colors()[i as int] == config.prompt_color@);
            return Ok(());
        }
        i = i + 1;
    }
    assert(!cs.contains(config.prompt_color@));
    Err(ConfigError::PromptColor)
}

/// Why a sort was refused.
#[derive(Debug, PartialEq, Eq, Structural)]
pub enum SortError {
    InvalidKey,
    InvalidOrder,
}

/// The order that a sort key names.
pub open spec fn key_named(s: Seq<char>) -> Option<SortKey> {
    if s == "name"@ {
        Some(SortKey::Name)
    } else if s == "start"@ {
        Some(SortKey::Start)
    } else if s == "end"@ {
        Some(SortKey::End)
    } else if s == "priority"@ {
        Some(SortKey::Priority)
    } else if s == "difficulty"@ {
        Some(SortKey::Difficulty)
    } else {
        None
    }
}

/// Whether an ordering argument asks for descending order.
pub open spec fn descending_named(s: Seq<char>) -> Option<bool> {
    if s == "ascending"@ || s == "asc"@ || s == "a"@ {
        Some(false)
    } else if s == "descending"@ || s == "desc"@ || s == "d"@ || s == "rev"@ || s == "reverse"@ {
        Some(true)
    } else {
        None
    }
}

pub open spec fn requested_key(key: Option<&str>) -> Option<SortKey> {
    match key {
        None => Some(SortKey::Standard),
        Some(s) => key_named(trim_of(s@)),
    }
}

pub open spec fn requested_descending(order: Option<&str>) -> Option<bool> {
    match order {
        None => Some(false),
        Some(o) => descending_named(trim_of(o@)),
    }
}

/// The events sorted in the order `k`, then reversed when `desc` holds.
pub open spec fn sorted_as_requested(events: Seq<EventView>, k: SortKey, desc: bool) -> Seq<
    EventView,
> {
    if desc {
        sort_events(k, events).reverse()
    } else {
        sort_events(k, events)
    }
}

fn is_word(t: &str, w: &str) -> (r: bool)
    ensures
        r == (t@ == w@),
{
    String::from_str(t) == String::from_str(w)
}

fn parse_key(key: Option<&str>) -> (r: Option<SortKey>)
    ensures
        r == requested_key(key),
{
    match key {
        None => Some(SortKey::Standard),
        Some(s) => {
            let t = trim(s);
            if is_word(t, "name") {
                Some(SortKey::Name)
            } else if is_word(t, "start") {
                Some(SortKey::Start)
            } else if is_word(t, "end") {
                Some(SortKey::End)
            } else if is_word(t, "priority") {
                Some(SortKey::Priority)
            } else if is_word(t, "difficulty") {
                Some(SortKey::Difficulty)
            } else {
                None
            }
        },
    }
}

fn parse_order(order: Option<&str>) -> (r: Option<bool>)
    ensures
        r == requested_descending(order),
{
    match order {
        None => Some(false),
        Some(o) => {
            let t = trim(o);
            if is_word(t, "ascending") || is_word(t, "asc") || is_word(t, "a") {
                Some(false)
            } else if is_word(t, "descending") || is_word(t, "desc") || is_word(t, "d") || is_word(
                t,
                "rev",
            ) || is_word(t, "reverse") {
                Some(true)
            } else {
                None
            }
        },
    }
}

/// The events in the opposite order.
fn reversed(v: &Vec<Event>) -> (r: Vec<Event>)
    ensures
        events_view(r@) == events_view(v@).reverse(),
{
    let ghost s = events_view(v@);
    let mut out: Vec<Event> = Vec::new();
    let mut i: usize = v.len();
    while i > 0
        invariant
            i <= v.len(),
            s == events_view(v@),
            events_view(out@) == s.reverse().take(v.len() - i),
        decreases i,
    {
        assert(s[i - 1] == v@[i - 1]@);
        assert(s.len() > 0);
        assert(s.reverse() =~= Seq::new(s.len(), |j: int| s[s.len() - 1 - j]));
        assert(s.reverse()[v.len() - i] == s[i - 1]);
        let ghost before = events_view(out@);
        out.push(v[i - 1].copy());
        assert(events_view(out@) =~= before.push(s[i - 1]));
        assert(s.reverse().take(v.len() - i + 1) =~= s.reverse().take(v.len() - i).push(
            s.reverse()[v.len() - i],
        ));
        i = i - 1;
    }
    if v.len() == 0 {
        assert(s.reverse() =~= Seq::<EventView>::empty());
    }
    assert(s.reverse().take(v.len() as int) =~= s.reverse());
    out
}

/// Sorts the calendar's events by `key` (start then name when there is
/// none; otherwise name, start, end, priority or difficulty), keeping the
/// order of ties, then reverses them when `order` asks for descending
/// order. An unknown key or order is refused and leaves the calendar as it
/// was.
pub fn sort(calendar: &mut Calendar, key: Option<&str>, order: Option<&str>) -> (r: Result<
    (),
    SortError,
>)
    ensures
        requested_key(key) is None ==> (r == Err::<(), SortError>(SortError::InvalidKey)
            && final(calendar)@ == old(calendar)@),
        requested_key(key) is Some && requested_descending(order) is None ==> (r == Err::<
            (),
            SortError,
        >(SortError::InvalidOrder) && final(calendar)@ == old(calendar)@),
        requested_key(key) is Some && requested_descending(order) is Some ==> (r is Ok && final(
            calendar)@ == (CalendarView {
            events: sorted_as_requested(
                old(calendar)@.events,
                requested_key(key)->Some_0,
                requested_descending(order)->Some_0,
            ),
            ..old(calendar)@
        })),
{
    let k = match parse_key(key) {
        Some(k) => k,
        None => {
            return Err(SortError::InvalidKey);
        },
    };
    let desc = match parse_order(order) {
        Some(d) => d,
        None => {
            return Err(SortError::InvalidOrder);
        },
    };
    let sorted = sort_in_order(calendar.events(), k);
    if desc {
        calendar.set_events(reversed(&sorted));
    } else {
        calendar.set_events(sorted);
    }
    Ok(())
}

/// Occurrences still to come today: under way at `now`, or starting from
/// `now` until the next midnight `tomorrow`.
pub open spec fn left_today(now: int, tomorrow: int) -> spec_fn(EventView) -> bool {
    |e: EventView| e.is_happening_on(now) || (now <= e.start < tomorrow)
}

/// Occurrences that start in `[from, to)`.
pub open spec fn starting_within(from: int, to: int) -> spec_fn(EventView) -> bool {
    |e: EventView| from <= e.start < to
}

/// Deadlines that fall before `limit`.
pub open spec fn due_before(limit: int) -> spec_fn(DeadlineView) -> bool {
    |d: DeadlineView| d.date < limit
}

/// The numbers in a briefing: occurrences left today, occurrences
/// tomorrow, and deadlines before the day a week ahead and before the day
/// two weeks ahead. The day boundaries are the local midnights that follow
/// `now`: `tomorrow`, `day_after`, and those 7 and 14 days ahead.
pub fn briefing_counts(
    occurrences: &Vec<Event>,
    deadlines: &Vec<Deadline>,
    now: i64,
    tomorrow: i64,
    day_after: i64,
    week: i64,
    fortnight: i64,
) -> (r: (usize, usize, usize, usize))
    ensures
        r.0 == events_view(occurrences@).filter(left_today(now as int, tomorrow as int)).len(),
        r.1 == events_view(occurrences@).filter(starting_within(tomorrow as int, day_after as int)).len(),
        r.2 == deadlines_view(deadlines@).filter(due_before(week as int)).len(),
        r.3 == deadlines_view(deadlines@).filter(due_before(fortnight as int)).len(),
{
    let ghost ev = events_view(occurrences@);
    let ghost today = left_today(now as int, tomorrow as int);
    let ghost next = starting_within(tomorrow as int, day_after as int);
    let mut left: usize = 0;
    let mut on_tomorrow: usize = 0;
    let mut i: usize = 0;
    while i < occurrences.len()
        invariant
            i <= occurrences.len(),
            ev == events_view(occurrences@),
            today == left_today(now as int, tomorrow as int),
            next == starting_within(tomorrow as int, day_after as int),
            left == ev.take(i as int).filter(today).len(),
            on_tomorrow == ev.take(i as int).filter(next).len(),
            left <= i,
            on_tomorrow <= i,
        decreases occurrences.len() - i,
    {
        proof {
            lemma_filter_step(ev, i as int, today);
            lemma_filter_step(ev, i as int, next);
        }
        let e = &occurrences[i];
        assert(ev[i as int] == e@);
        if e.is_happening_on(now) || (now <= e.start() && e.start() < tomorrow) {
            left = left + 1;
        }
        if tomorrow <= e.start() && e.start() < day_after {
            on_tomorrow = on_tomorrow + 1;
        }
        i = i + 1;
    }
    assert(ev.take(ev.len() as int) =~= ev);
    let ghost dv = deadlines_view(deadlines@);
    let ghost in_week = due_before(week as int);
    let ghost in_fortnight = due_before(fortnight as int);
    let mut due_week: usize = 0;
    let mut due_fortnight: usize = 0;
    let mut j: usize = 0;
    while j < deadlines.len()
        invariant
            j <= deadlines.len(),
            dv == deadlines_view(deadlines@),
            in_week == due_before(week as int),
            in_fortnight == due_before(fortnight as int),
            due_week == dv.take(j as int).filter(in_week).len(),
            due_fortnight == dv.take(j as int).filter(in_fortnight).len(),
            due_week <= j,
            due_fortnight <= j,
        decreases deadlines.len() - j,
    {
        proof {
            lemma_filter_step(dv, j as int, in_week);
            lemma_filter_step(dv, j as int, in_fortnight);
        }
        let d = &deadlines[j];
        assert(dv[j as int] == d@);
        if d.date() < week {
            due_week = due_week + 1;
        }
        if d.date() < fortnight {
            due_fortnight = due_fortnight + 1;
        }
        j = j + 1;
    }
    assert(dv.take(dv.len() as int) =~= dv);
    (left, on_tomorrow, due_week, due_fortnight)
}

} // verus!

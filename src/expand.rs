use vstd::prelude::*;

use crate::calendar::{events_view, Calendar};
use crate::clock::now_timestamp;
use crate::event::{
    contains_time, key_le, key_le_exec, lemma_key_le_total, valid_time, Event, EventView, SortKey,
};

verus! {

/// Whether an occurrence that starts at `s` and lasts `duration` is shown at
/// `now`: it has not started yet, or it is under way.
pub open spec fn visible(s: int, duration: int, now: int) -> bool {
    s >= now || (s <= now && now < s + duration)
}

/// The occurrence of `e` that starts at `s`, with `e`'s duration.
pub open spec fn occurrence_at(e: EventView, s: int) -> EventView {
    EventView { start: s, end: s + e.duration(), ..e }
}

/// Whether the occurrence of `e` at `s` is emitted: it is visible and not
/// cancelled.
pub open spec fn kept(e: EventView, s: int, now: int) -> bool {
    visible(s, e.duration(), now) && !e.exceptions.contains(s)
}

/// The emitted occurrences of a recurring `e` whose starts are `s`,
/// `s + repeat`, ... up to, not including, `horizon`.
pub open spec fn occurrences_from(e: EventView, s: int, horizon: int, now: int) -> Seq<EventView>
    decreases (if s < horizon {
        horizon - s
    } else {
        0
    }),
    when e.repeat > 0
{
    if s >= horizon {
        Seq::empty()
    } else {
        let rest = occurrences_from(e, s + e.repeat, horizon, now);
        if kept(e, s, now) {
            seq![occurrence_at(e, s)] + rest
        } else {
            rest
        }
    }
}

/// The occurrences that one event definition contributes. One that does
/// not recur is its own only occurrence, whatever the window.
pub open spec fn event_occurrences(e: EventView, horizon: int, now: int) -> Seq<EventView> {
    if e.repeat == 0 {
        if e.exceptions.contains(e.start) {
            Seq::empty()
        } else {
            seq![e]
        }
    } else {
        occurrences_from(e, e.start, horizon, now)
    }
}

/// The occurrences of all definitions, definition by definition.
pub open spec fn all_occurrences(events: Seq<EventView>, horizon: int, now: int) -> Seq<
    EventView,
>
    decreases events.len(),
{
    if events.len() == 0 {
        Seq::empty()
    } else {
        all_occurrences(events.drop_last(), horizon, now) + event_occurrences(
            events.last(),
            horizon,
            now,
        )
    }
}

/// `x` placed into `s` after every element that does not come after it in
/// the order `k`.
pub open spec fn insert_sorted(k: SortKey, s: Seq<EventView>, x: EventView) -> Seq<EventView>
    decreases s.len(),
{
    if s.len() == 0 {
        seq![x]
    } else if key_le(k, s.last(), x) {
        s.push(x)
    } else {
        insert_sorted(k, s.drop_last(), x).push(s.last())
    }
}

/// `s` in the order `k`; elements that tie keep their relative order.
pub open spec fn sort_events(k: SortKey, s: Seq<EventView>) -> Seq<EventView>
    decreases s.len(),
{
    if s.len() == 0 {
        s
    } else {
        insert_sorted(k, sort_events(k, s.drop_last()), s.last())
    }
}

/// The occurrences of `events` that are shown at `now` and start before
/// `horizon`, in presentation order.
pub open spec fn expansion(events: Seq<EventView>, horizon: int, now: int) -> Seq<EventView> {
    sort_events(SortKey::Standard, all_occurrences(events, horizon, now))
}

pub open spec fn all_wf(events: Seq<EventView>) -> bool {
    forall|i: int| 0 <= i < events.len() ==> (#[trigger] events[i]).wf()
}

/// Appends to `out` the occurrences that `e` contributes.
fn push_occurrences(e: &Event, horizon: i64, now: i64, out: &mut Vec<Event>)
    requires
        e@.wf(),
        valid_time(horizon as int),
    ensures
        events_view(final(out)@) == events_view(old(out)@) + event_occurrences(
            e@,
            horizon as int,
            now as int,
        ),
{
    let ghost base = events_view(out@);
    if e.repeat() == 0 {
        if !contains_time(e.exceptions(), e.start()) {
            out.push(e.copy());
            assert(events_view(out@) =~= base + seq![e@]);
        } else {
            assert(events_view(out@) =~= base + Seq::<EventView>::empty());
        }
        return;
    }
    let ghost total = occurrences_from(e@, e@.start, horizon as int, now as int);
    let step: i128 = e.repeat() as i128;
    let duration = e.duration();
    let mut s: i128 = e.start() as i128;
    assert(events_view(out@) + total =~= base + total);
    while s < horizon as i128
        invariant
            e@.wf(),
            e@.repeat > 0,
            step == e@.repeat,
            0 < step <= i64::MAX,
            duration == e@.duration(),
            valid_time(horizon as int),
            e@.start <= s,
            total == occurrences_from(e@, e@.start, horizon as int, now as int),
            base + total == events_view(out@) + occurrences_from(
                e@,
                s as int,
                horizon as int,
                now as int,
            ),
        decreases (if s < horizon as int {
            horizon as int - s
        } else {
            0
        }),
    {
        let at = s as i64;
        let ghost before = events_view(out@);
        let ghost rest = occurrences_from(e@, s + step, horizon as int, now as int);
        let shown = at >= now || (at <= now && now < at + duration);
        if shown && !contains_time(e.exceptions(), at) {
            out.push(e.moved_to(at));
            assert(events_view(out@) =~= before.push(occurrence_at(e@, s as int)));
            assert(before + (seq![occurrence_at(e@, s as int)] + rest) =~= events_view(out@)
                + rest);
        }
        s = s + step;
    }
    assert(events_view(out@) + Seq::<EventView>::empty() =~= events_view(out@));
}

/// The occurrences of every definition in `events`, definition by
/// definition, before sorting.
fn collect_occurrences(events: &Vec<Event>, horizon: i64, now: i64) -> (r: Vec<Event>)
    requires
        all_wf(events_view(events@)),
        valid_time(horizon as int),
    ensures
        events_view(r@) == all_occurrences(events_view(events@), horizon as int, now as int),
{
    let ghost ev = events_view(events@);
    let mut out: Vec<Event> = Vec::new();
    let mut i: usize = 0;
    assert(ev.take(0) =~= Seq::<EventView>::empty());
    assert(events_view(out@) =~= Seq::<EventView>::empty());
    while i < events.len()
        invariant
            i <= events.len(),
            ev == events_view(events@),
            all_wf(ev),
            valid_time(horizon as int),
            events_view(out@) == all_occurrences(ev.take(i as int), horizon as int, now as int),
        decreases events.len() - i,
    {
        assert(ev[i as int] == events@[i as int]@);
        push_occurrences(&events[i], horizon, now, &mut out);
        assert(ev.take(i + 1).drop_last() =~= ev.take(i as int));
        i = i + 1;
    }
    assert(ev.take(events.len() as int) =~= ev);
    out
}

/// Places `x` into `v` as `insert_sorted` says.
fn insert_in_order(v: &mut Vec<Event>, x: Event, k: SortKey)
    ensures
        events_view(final(v)@) == insert_sorted(k, events_view(old(v)@), x@),
{
    let ghost s = events_view(v@);
    let mut p: usize = v.len();
    let mut found = false;
    assert(s.take(s.len() as int) =~= s);
    assert(s.skip(s.len() as int) =~= Seq::<EventView>::empty());
    while !found
        invariant
            p <= v.len(),
            s == events_view(v@),
            insert_sorted(k, s, x@) == insert_sorted(k, s.take(p as int), x@) + s.skip(p as int),
            found ==> (p == 0 || key_le(k, s[p - 1], x@)),
        decreases 2 * p + (if found {
            0int
        } else {
            1int
        }),
    {
        if p == 0 {
            found = true;
        } else {
            assert(s[p - 1] == v@[p - 1]@);
            if key_le_exec(k, &v[p - 1], &x) {
                found = true;
            } else {
                let ghost t = s.take(p as int);
                assert(t.drop_last() =~= s.take(p - 1));
                assert(insert_sorted(k, t, x@) == insert_sorted(k, s.take(p - 1), x@).push(s[p - 1]));
                assert(insert_sorted(k, s.take(p - 1), x@).push(s[p - 1]) + s.skip(p as int)
                    =~= insert_sorted(k, s.take(p - 1), x@) + s.skip(p - 1));
                p = p - 1;
            }
        }
    }
    if p > 0 {
        assert(s.take(p as int).last() == s[p - 1]);
    } else {
        assert(s.take(0) =~= Seq::<EventView>::empty());
    }
    let ghost xv = x@;
    v.insert(p, x);
    assert(events_view(v@) =~= s.take(p as int).push(xv) + s.skip(p as int));
}

/// `v` in the order `k`, as `sort_events` says; elements that tie keep
/// their relative order.
pub fn sort_in_order(v: &Vec<Event>, k: SortKey) -> (r: Vec<Event>)
    ensures
        events_view(r@) == sort_events(k, events_view(v@)),
{
    let ghost s = events_view(v@);
    let mut out: Vec<Event> = Vec::new();
    let mut i: usize = 0;
    assert(s.take(0) =~= Seq::<EventView>::empty());
    assert(events_view(out@) =~= Seq::<EventView>::empty());
    while i < v.len()
        invariant
            i <= v.len(),
            s == events_view(v@),
            events_view(out@) == sort_events(k, s.take(i as int)),
        decreases v.len() - i,
    {
        assert(s[i as int] == v@[i as int]@);
        assert(s.take(i + 1).drop_last() =~= s.take(i as int));
        insert_in_order(&mut out, v[i].copy(), k);
        i = i + 1;
    }
    assert(s.take(v.len() as int) =~= s);
    out
}

/// The occurrences of the calendar's events that are shown at `now` and
/// start before `end`, sorted by start, then by name.
pub fn generate_at(calendar: &Calendar, end: i64, now: i64) -> (r: Vec<Event>)
    requires
        all_wf(calendar@.events),
        valid_time(end as int),
    ensures
        events_view(r@) == expansion(calendar@.events, end as int, now as int),
{
    let all = collect_occurrences(calendar.events(), end, now);
    sort_in_order(&all, SortKey::Standard)
}

/// The occurrences of the calendar's events that are shown now and start
/// before `end`, sorted by start, then by name. The clock is read once.
pub fn generate_until(calendar: &Calendar, end: i64) -> (r: Vec<Event>)
    requires
        all_wf(calendar@.events),
        valid_time(end as int),
    ensures
        exists|now: i64| events_view(r@) == expansion(calendar@.events, end as int, now as int),
{
    let now = now_timestamp();
    generate_at(calendar, end, now)
}

/// Each element comes before its successor, or with it, in the order `k`.
pub open spec fn sorted(k: SortKey, s: Seq<EventView>) -> bool {
    forall|i: int| 0 <= i < s.len() - 1 ==> key_le(k, #[trigger] s[i], s[i + 1])
}

proof fn lemma_concat_contains(a: Seq<EventView>, b: Seq<EventView>, y: EventView)
    ensures
        (a + b).contains(y) <==> (a.contains(y) || b.contains(y)),
{
    if (a + b).contains(y) {
        let j = choose|j: int| 0 <= j < (a + b).len() && (a + b)[j] == y;
        if j >= a.len() {
            assert(b[j - a.len()] == y);
        }
    }
    if a.contains(y) {
        let j = choose|j: int| 0 <= j < a.len() && a[j] == y;
        assert((a + b)[j] == y);
    }
    if b.contains(y) {
        let j = choose|j: int| 0 <= j < b.len() && b[j] == y;
        assert((a + b)[a.len() + j] == y);
    }
}

proof fn lemma_push_contains(a: Seq<EventView>, x: EventView, y: EventView)
    ensures
        a.push(x).contains(y) <==> (a.contains(y) || y == x),
{
    assert(a.push(x) =~= a + seq![x]);
    lemma_concat_contains(a, seq![x], y);
    if seq![x].contains(y) {
        let j = choose|j: int| 0 <= j < 1 && seq![x][j] == y;
    }
    if y == x {
        assert(seq![x][0] == y);
    }
}

proof fn lemma_insert_sorted_contains(k: SortKey, s: Seq<EventView>, x: EventView, y: EventView)
    ensures
        insert_sorted(k, s, x).contains(y) <==> (s.contains(y) || y == x),
    decreases s.len(),
{
    if s.len() == 0 {
        assert(seq![x][0] == x);
        if seq![x].contains(y) {
            let j = choose|j: int| 0 <= j < 1 && seq![x][j] == y;
        }
    } else if key_le(k, s.last(), x) {
        lemma_push_contains(s, x, y);
    } else {
        let t = s.drop_last();
        lemma_insert_sorted_contains(k, t, x, y);
        lemma_push_contains(insert_sorted(k, t, x), s.last(), y);
        lemma_push_contains(t, s.last(), y);
        assert(t.push(s.last()) =~= s);
    }
}

proof fn lemma_sort_contains(k: SortKey, s: Seq<EventView>, y: EventView)
    ensures
        sort_events(k, s).contains(y) <==> s.contains(y),
    decreases s.len(),
{
    if s.len() > 0 {
        let t = s.drop_last();
        lemma_sort_contains(k, t, y);
        lemma_insert_sorted_contains(k, sort_events(k, t), s.last(), y);
        lemma_push_contains(t, s.last(), y);
        assert(t.push(s.last()) =~= s);
    }
}

proof fn lemma_insert_sorted_sorted(k: SortKey, s: Seq<EventView>, x: EventView)
    requires
        sorted(k, s),
    ensures
        sorted(k, insert_sorted(k, s, x)),
        insert_sorted(k, s, x).len() == s.len() + 1,
        insert_sorted(k, s, x).last() == x || (s.len() > 0 && insert_sorted(k, s, x).last()
            == s.last()),
    decreases s.len(),
{
    if s.len() == 0 {
    } else if key_le(k, s.last(), x) {
        let r = s.push(x);
        assert forall|i: int| 0 <= i < r.len() - 1 implies key_le(k, #[trigger] r[i], r[i + 1]) by {
            if i < s.len() - 1 {
                assert(r[i] == s[i] && r[i + 1] == s[i + 1]);
            }
        }
    } else {
        let t = s.drop_last();
        assert(sorted(k, t)) by {
            assert forall|i: int| 0 <= i < t.len() - 1 implies key_le(k, #[trigger] t[i], t[i + 1]) by {
                assert(t[i] == s[i] && t[i + 1] == s[i + 1]);
            }
        }
        lemma_insert_sorted_sorted(k, t, x);
        let u = insert_sorted(k, t, x);
        lemma_key_le_total(k, s.last(), x);
        if t.len() > 0 && u.last() == t.last() {
            assert(key_le(k, s[t.len() - 1], s[t.len() as int]));
        }
        assert(key_le(k, u.last(), s.last()));
        let r = u.push(s.last());
        assert forall|i: int| 0 <= i < r.len() - 1 implies key_le(k, #[trigger] r[i], r[i + 1]) by {
            if i < u.len() - 1 {
                assert(r[i] == u[i] && r[i + 1] == u[i + 1]);
            }
        }
    }
}

proof fn lemma_sort_sorted(k: SortKey, s: Seq<EventView>)
    ensures
        sorted(k, sort_events(k, s)),
        sort_events(k, s).len() == s.len(),
    decreases s.len(),
{
    if s.len() > 0 {
        lemma_sort_sorted(k, s.drop_last());
        lemma_insert_sorted_sorted(k, sort_events(k, s.drop_last()), s.last());
    }
}

proof fn lemma_sort_of_sorted(k: SortKey, s: Seq<EventView>)
    requires
        sorted(k, s),
    ensures
        sort_events(k, s) == s,
    decreases s.len(),
{
    if s.len() > 0 {
        let t = s.drop_last();
        assert(sorted(k, t)) by {
            assert forall|i: int| 0 <= i < t.len() - 1 implies key_le(k, #[trigger] t[i], t[i + 1]) by {
                assert(t[i] == s[i] && t[i + 1] == s[i + 1]);
            }
        }
        lemma_sort_of_sorted(k, t);
        if t.len() > 0 {
            assert(key_le(k, s[t.len() - 1], s[t.len() as int]));
        }
        assert(t.push(s.last()) =~= s);
    }
}

proof fn lemma_all_occurrences_member(events: Seq<EventView>, horizon: int, now: int, y: EventView)
    requires
        all_occurrences(events, horizon, now).contains(y),
    ensures
        exists|i: int|
            0 <= i < events.len() && (#[trigger] event_occurrences(events[i], horizon, now)).contains(
                y,
            ),
    decreases events.len(),
{
    let t = events.drop_last();
    lemma_concat_contains(
        all_occurrences(t, horizon, now),
        event_occurrences(events.last(), horizon, now),
        y,
    );
    if all_occurrences(t, horizon, now).contains(y) {
        lemma_all_occurrences_member(t, horizon, now, y);
        let i = choose|i: int|
            0 <= i < t.len() && (#[trigger] event_occurrences(t[i], horizon, now)).contains(y);
        assert(events[i] == t[i]);
    } else {
        assert(events[events.len() - 1] == events.last());
    }
}

proof fn lemma_all_occurrences_include(
    events: Seq<EventView>,
    i: int,
    horizon: int,
    now: int,
    y: EventView,
)
    requires
        0 <= i < events.len(),
        event_occurrences(events[i], horizon, now).contains(y),
    ensures
        all_occurrences(events, horizon, now).contains(y),
    decreases events.len(),
{
    let t = events.drop_last();
    lemma_concat_contains(
        all_occurrences(t, horizon, now),
        event_occurrences(events.last(), horizon, now),
        y,
    );
    if i < events.len() - 1 {
        assert(t[i] == events[i]);
        lemma_all_occurrences_include(t, i, horizon, now, y);
    }
}

proof fn lemma_occurrences_from_member(e: EventView, s: int, horizon: int, now: int, y: EventView)
    requires
        e.repeat > 0,
        occurrences_from(e, s, horizon, now).contains(y),
    ensures
        y.start < horizon,
        kept(e, y.start, now),
        y == occurrence_at(e, y.start),
    decreases (if s < horizon {
        horizon - s
    } else {
        0
    }),
{
    if s < horizon {
        let rest = occurrences_from(e, s + e.repeat, horizon, now);
        if kept(e, s, now) {
            lemma_concat_contains(seq![occurrence_at(e, s)], rest, y);
            if seq![occurrence_at(e, s)].contains(y) {
                let j = choose|j: int| 0 <= j < 1 && seq![occurrence_at(e, s)][j] == y;
            } else {
                lemma_occurrences_from_member(e, s + e.repeat, horizon, now, y);
            }
        } else {
            lemma_occurrences_from_member(e, s + e.repeat, horizon, now, y);
        }
    }
}

proof fn lemma_occurrences_from_include(e: EventView, s: int, j: nat, horizon: int, now: int)
    requires
        e.repeat > 0,
        s + j * e.repeat < horizon,
        kept(e, s + j * e.repeat, now),
    ensures
        occurrences_from(e, s, horizon, now).contains(occurrence_at(e, s + j * e.repeat)),
    decreases j,
{
    let x = occurrence_at(e, s + j * e.repeat);
    let rest = occurrences_from(e, s + e.repeat, horizon, now);
    assert(s < horizon) by (nonlinear_arith)
        requires
            e.repeat > 0,
            s + j * e.repeat < horizon,
            j >= 0,
    ;
    if j == 0 {
        assert(s + j * e.repeat == s) by (nonlinear_arith)
            requires
                j == 0,
        ;
        assert((seq![occurrence_at(e, s)] + rest)[0] == x);
    } else {
        let k = (j - 1) as nat;
        assert(s + e.repeat + k * e.repeat == s + j * e.repeat) by (nonlinear_arith)
            requires
                k == j - 1,
        ;
        lemma_occurrences_from_include(e, s + e.repeat, k, horizon, now);
        if kept(e, s, now) {
            lemma_concat_contains(seq![occurrence_at(e, s)], rest, x);
        }
    }
}

/// A kept occurrence of a recurring definition that starts before the
/// horizon is in the expansion.
proof fn lemma_kept_emitted(events: Seq<EventView>, i: int, k: nat, horizon: int, now: int)
    requires
        0 <= i < events.len(),
        events[i].repeat > 0,
        events[i].start + k * events[i].repeat < horizon,
        kept(events[i], events[i].start + k * events[i].repeat, now),
    ensures
        expansion(events, horizon, now).contains(
            occurrence_at(events[i], events[i].start + k * events[i].repeat),
        ),
{
    let e = events[i];
    let x = occurrence_at(e, e.start + k * e.repeat);
    lemma_occurrences_from_include(e, e.start, k, horizon, now);
    lemma_all_occurrences_include(events, i, horizon, now, x);
    lemma_sort_contains(SortKey::Standard, all_occurrences(events, horizon, now), x);
}

/// What an emitted occurrence is: a definition's occurrence at its own start;
/// for a recurring definition, one that is kept and starts before the
/// horizon.
proof fn lemma_emitted_member(events: Seq<EventView>, horizon: int, now: int, y: EventView)
    requires
        all_wf(events),
        expansion(events, horizon, now).contains(y),
    ensures
        exists|i: int|
            0 <= i < events.len() && (#[trigger] events[i]).repeat == y.repeat && y
                == occurrence_at(events[i], y.start) && !y.exceptions.contains(y.start) && (
            y.repeat > 0 ==> y.start < horizon && kept(events[i], y.start, now)),
{
    lemma_sort_contains(SortKey::Standard, all_occurrences(events, horizon, now), y);
    lemma_all_occurrences_member(events, horizon, now, y);
    let i = choose|i: int|
        0 <= i < events.len() && (#[trigger] event_occurrences(events[i], horizon, now)).contains(y);
    let e = events[i];
    assert(e.wf());
    if e.repeat == 0 {
        let j = choose|j: int| 0 <= j < 1 && seq![e][j] == y;
        assert(y == e);
        assert(occurrence_at(e, y.start) == e);
    } else {
        lemma_occurrences_from_member(e, e.start, horizon, now, y);
    }
}

/// Expanding a calendar gives its occurrences in presentation order (by
/// start, then by name); since the expansion is a function of the
/// definitions, the horizon and `now`, two expansions of the same inputs
/// agree, and sorting the result again leaves it unchanged.
pub proof fn lemma_expansion_ordered(events: Seq<EventView>, horizon: int, now: int)
    ensures
        sorted(SortKey::Standard, expansion(events, horizon, now)),
        sort_events(SortKey::Standard, expansion(events, horizon, now)) == expansion(events, horizon, now),
{
    lemma_sort_sorted(SortKey::Standard, all_occurrences(events, horizon, now));
    lemma_sort_of_sorted(SortKey::Standard, expansion(events, horizon, now));
}

/// No emitted occurrence of a recurring definition starts at or after the
/// horizon.
pub proof fn lemma_horizon_bound(events: Seq<EventView>, horizon: int, now: int, y: EventView)
    requires
        all_wf(events),
        expansion(events, horizon, now).contains(y),
        y.repeat > 0,
    ensures
        y.start < horizon,
{
    lemma_emitted_member(events, horizon, now, y);
}

/// An occurrence of a recurring definition that starts at or after `now`
/// and before the horizon, and is not cancelled, is emitted; in particular
/// the first such occurrence.
pub proof fn lemma_upcoming_emitted(events: Seq<EventView>, i: int, k: nat, horizon: int, now: int)
    requires
        0 <= i < events.len(),
        events[i].repeat > 0,
        now <= events[i].start + k * events[i].repeat < horizon,
        !events[i].exceptions.contains(events[i].start + k * events[i].repeat),
    ensures
        expansion(events, horizon, now).contains(
            occurrence_at(events[i], events[i].start + k * events[i].repeat),
        ),
{
    lemma_kept_emitted(events, i, k, horizon, now);
}

/// No emitted occurrence starts at one of its own cancelled starts.
pub proof fn lemma_no_cancelled_emitted(events: Seq<EventView>, horizon: int, now: int, y: EventView)
    requires
        all_wf(events),
        expansion(events, horizon, now).contains(y),
    ensures
        !y.exceptions.contains(y.start),
{
    lemma_emitted_member(events, horizon, now, y);
}

/// For a visible occurrence of a recurring definition that starts before
/// the horizon, being emitted and not being cancelled are the same: the
/// cancellation goes by the computed start alone.
pub proof fn lemma_exception_exact(events: Seq<EventView>, i: int, k: nat, horizon: int, now: int)
    requires
        all_wf(events),
        0 <= i < events.len(),
        events[i].repeat > 0,
        events[i].start + k * events[i].repeat < horizon,
        visible(events[i].start + k * events[i].repeat, events[i].duration(), now),
    ensures
        expansion(events, horizon, now).contains(
            occurrence_at(events[i], events[i].start + k * events[i].repeat),
        ) <==> !events[i].exceptions.contains(events[i].start + k * events[i].repeat),
{
    let e = events[i];
    let x = occurrence_at(e, e.start + k * e.repeat);
    if !e.exceptions.contains(e.start + k * e.repeat) {
        lemma_kept_emitted(events, i, k, horizon, now);
    }
    if expansion(events, horizon, now).contains(x) {
        lemma_no_cancelled_emitted(events, horizon, now, x);
    }
}

/// An occurrence of a recurring definition that is under way at `now`
/// (started before it, ends after it), starts before the horizon and is not
/// cancelled, is emitted although it started in the past.
pub proof fn lemma_current_emitted(events: Seq<EventView>, i: int, k: nat, horizon: int, now: int)
    requires
        0 <= i < events.len(),
        events[i].repeat > 0,
        events[i].start + k * events[i].repeat < now,
        now < events[i].start + k * events[i].repeat + events[i].duration(),
        events[i].start + k * events[i].repeat < horizon,
        !events[i].exceptions.contains(events[i].start + k * events[i].repeat),
    ensures
        expansion(events, horizon, now).contains(
            occurrence_at(events[i], events[i].start + k * events[i].repeat),
        ),
{
    lemma_kept_emitted(events, i, k, horizon, now);
}

} // verus!

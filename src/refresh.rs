use vstd::prelude::*;

use crate::calendar::events_view;
use crate::event::{valid_time, Event, EventView, TIME_LIMIT};
use crate::expand::occurrence_at;
use crate::seq_facts::lemma_filter_step;

verus! {

/// The first of `s`, `s + step`, `s + 2 * step`, ... that is not before
/// `now`.
pub open spec fn first_not_before(s: int, step: int, now: int) -> int
    decreases (if s < now {
        now - s
    } else {
        0
    }),
    when step > 0
{
    if s >= now {
        s
    } else {
        first_not_before(s + step, step, now)
    }
}

/// The start of the occurrence of a recurring event that matters at `now`:
/// the first one that starts at or after `now`, or the one before it when
/// the event's own first occurrence is under way at `now`.
pub open spec fn closest_start(e: EventView, now: int) -> int {
    let s = first_not_before(e.start, e.repeat, now);
    if e.start < now && now < e.start + e.duration() {
        s - e.repeat
    } else {
        s
    }
}

/// Recurring events whose occurrences the refresh can compute: valid
/// times, and an interval of at most `TIME_LIMIT`.
pub open spec fn refreshable(e: EventView) -> bool {
    e.wf() && e.repeat <= TIME_LIMIT
}

/// The event moved to its occurrence that matters at `now`, if it recurs.
pub open spec fn refreshed(e: EventView, now: int) -> EventView {
    if e.repeat != 0 {
        occurrence_at(e, closest_start(e, now))
    } else {
        e
    }
}

/// Whether an event stays in the calendar: it recurs, or it has not ended.
pub open spec fn still_relevant(e: EventView, now: int) -> bool {
    e.repeat != 0 || e.end > now
}

pub open spec fn relevant_at(now: int) -> spec_fn(EventView) -> bool {
    |e: EventView| still_relevant(e, now)
}

pub open spec fn brought_up_to_date(events: Seq<EventView>, now: int) -> Seq<EventView> {
    events.map_values(|e: EventView| refreshed(e, now)).filter(relevant_at(now))
}

proof fn lemma_first_not_before_bounds(s: int, step: int, now: int)
    requires
        step > 0,
    ensures
        first_not_before(s, step, now) >= now,
        first_not_before(s, step, now) >= s,
        s < now ==> first_not_before(s, step, now) < now + step,
        s < now ==> first_not_before(s, step, now) >= s + step,
        s >= now ==> first_not_before(s, step, now) == s,
    decreases (if s < now {
        now - s
    } else {
        0
    }),
{
    if s < now {
        lemma_first_not_before_bounds(s + step, step, now);
    }
}

/// The start of the occurrence of a recurring event that matters at `now`.
pub fn closest_occurence_start(event: &Event, now: i64) -> (r: i64)
    requires
        refreshable(event@),
        event@.repeat > 0,
        valid_time(now as int),
    ensures
        r == closest_start(event@, now as int),
{
    let step = event.repeat();
    let first = event.start();
    let mut start: i64 = first;
    while start < now
        invariant
            refreshable(event@),
            step == event@.repeat,
            0 < step <= TIME_LIMIT,
            first == event@.start,
            valid_time(now as int),
            first <= start,
            first_not_before(start as int, step as int, now as int) == first_not_before(
                first as int,
                step as int,
                now as int,
            ),
        decreases (if start < now {
            now - start
        } else {
            0
        }),
    {
        start = start + step;
    }
    proof {
        lemma_first_not_before_bounds(first as int, step as int, now as int);
    }
    let duration = event.duration();
    if first < now && now < first + duration {
        start - step
    } else {
        start
    }
}

/// Moves every recurring event to its occurrence that matters at `now`,
/// keeping its duration, and drops the events that do not recur and have
/// ended.
pub fn bring_up_to_date(events: &Vec<Event>, now: i64) -> (r: Vec<Event>)
    requires
        forall|i: int| 0 <= i < events@.len() ==> refreshable(#[trigger] events@[i]@),
        valid_time(now as int),
    ensures
        events_view(r@) == brought_up_to_date(events_view(events@), now as int),
{
    let ghost ev = events_view(events@);
    let ghost moved = ev.map_values(|e: EventView| refreshed(e, now as int));
    let mut out: Vec<Event> = Vec::new();
    let mut i: usize = 0;
    assert(moved.take(0) =~= Seq::<EventView>::empty());
    assert(events_view(out@) =~= Seq::<EventView>::empty());
    while i < events.len()
        invariant
            i <= events.len(),
            ev == events_view(events@),
            moved == ev.map_values(|e: EventView| refreshed(e, now as int)),
            forall|j: int| 0 <= j < events@.len() ==> refreshable(#[trigger] events@[j]@),
            valid_time(now as int),
            events_view(out@) == moved.take(i as int).filter(relevant_at(now as int)),
        decreases events.len() - i,
    {
        let e = &events[i];
        assert(ev[i as int] == e@);
        proof {
            lemma_filter_step(moved, i as int, relevant_at(now as int));
        }
        assert(moved[i as int] == refreshed(e@, now as int));
        let ghost before = events_view(out@);
        if e.repeat() != 0 {
            let s = closest_occurence_start(e, now);
            proof {
                lemma_first_not_before_bounds(e@.start, e@.repeat, now as int);
            }
            let m = e.moved_to(s);
            out.push(m);
            assert(events_view(out@) =~= before.push(refreshed(e@, now as int)));
        } else if e.end() > now {
            out.push(e.copy());
            assert(events_view(out@) =~= before.push(refreshed(e@, now as int)));
        }
        i = i + 1;
    }
    assert(moved.take(events.len() as int) =~= moved);
    out
}

} // verus!

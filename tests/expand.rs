use calmar::calendar::Calendar;
use calmar::event::Event;
use calmar::expand::{generate_at, generate_until};
use calmar::refresh::{bring_up_to_date, closest_occurence_start};

const HOUR: i64 = 3600;
const DAY: i64 = 86400;
/// Monday 1 January 2024, 00:00 UTC.
const MONDAY: i64 = 1704067200;

fn event(name: &str, start: i64, end: i64, repeat: i64, exceptions: Vec<i64>) -> Event {
    Event::new(name.to_string(), start, end, repeat, 5, 3, exceptions)
}

fn calendar(events: Vec<Event>) -> Calendar {
    let mut c = Calendar::new("test");
    for e in events {
        c.add_event(e);
    }
    c
}

fn starts(v: &[Event]) -> Vec<i64> {
    v.iter().map(|e| e.start()).collect()
}

#[test]
fn standup_with_a_cancelled_wednesday() {
    let mon_9 = MONDAY + 9 * HOUR;
    let c = calendar(vec![event("standup", mon_9, mon_9 + 15 * 60, DAY, vec![mon_9 + 2 * DAY])]);
    let out = generate_at(&c, MONDAY + 4 * DAY, MONDAY + 8 * HOUR);
    assert_eq!(starts(&out), vec![mon_9, mon_9 + DAY, mon_9 + 3 * DAY]);
    for e in &out {
        assert_eq!(e.end() - e.start(), 15 * 60);
        assert_eq!(e.name(), "standup");
    }
}

#[test]
fn equal_starts_are_ordered_by_name() {
    let tue_10 = MONDAY + DAY + 10 * HOUR;
    let c = calendar(vec![event("B", tue_10, tue_10 + HOUR, 0, vec![]), event("A", tue_10, tue_10 + HOUR, 0, vec![])]);
    let out = generate_at(&c, MONDAY, MONDAY);
    assert_eq!(out.iter().map(|e| e.name()).collect::<Vec<_>>(), vec!["A", "B"]);
}

#[test]
fn expansion_is_repeatable_and_sorted() {
    let c = calendar(vec![
        event("gym", MONDAY + 18 * HOUR, MONDAY + 19 * HOUR, 2 * DAY, vec![]),
        event("lunch", MONDAY + 12 * HOUR, MONDAY + 13 * HOUR, DAY, vec![]),
        event("dentist", MONDAY + DAY + 15 * HOUR, MONDAY + DAY + 16 * HOUR, 0, vec![]),
    ]);
    let a = generate_at(&c, MONDAY + 5 * DAY, MONDAY);
    let b = generate_at(&c, MONDAY + 5 * DAY, MONDAY);
    assert_eq!(starts(&a), starts(&b));
    assert_eq!(a.iter().map(|e| e.name()).collect::<Vec<_>>(), b.iter().map(|e| e.name()).collect::<Vec<_>>());
    let s = starts(&a);
    assert!(s.windows(2).all(|w| w[0] <= w[1]));
    assert_eq!(a.len(), 3 + 5 + 1);
}

#[test]
fn nothing_starts_at_or_after_the_horizon() {
    let c = calendar(vec![event("tick", MONDAY, MONDAY + 60, HOUR, vec![])]);
    let out = generate_at(&c, MONDAY + 5 * HOUR, MONDAY);
    assert_eq!(starts(&out), vec![MONDAY, MONDAY + HOUR, MONDAY + 2 * HOUR, MONDAY + 3 * HOUR, MONDAY + 4 * HOUR]);
    let out = generate_at(&c, MONDAY + 5 * HOUR + 1, MONDAY);
    assert_eq!(out.len(), 6);
}

#[test]
fn exceptions_go_by_the_exact_start() {
    let cancelled = MONDAY + 2 * DAY;
    let daily = calendar(vec![event("x", MONDAY, MONDAY + HOUR, DAY, vec![cancelled])]);
    assert_eq!(starts(&generate_at(&daily, MONDAY + 4 * DAY, MONDAY)), vec![MONDAY, MONDAY + DAY, MONDAY + 3 * DAY]);
    // With a two-day step, the cancelled timestamp is still suppressed and no other one is.
    let every_other = calendar(vec![event("x", MONDAY, MONDAY + HOUR, 2 * DAY, vec![cancelled])]);
    assert_eq!(starts(&generate_at(&every_other, MONDAY + 6 * DAY, MONDAY)), vec![MONDAY, MONDAY + 4 * DAY]);
    // With a three-day step no occurrence falls on the cancelled time.
    let every_third = calendar(vec![event("x", MONDAY, MONDAY + HOUR, 3 * DAY, vec![cancelled])]);
    assert_eq!(starts(&generate_at(&every_third, MONDAY + 6 * DAY, MONDAY)), vec![MONDAY, MONDAY + 3 * DAY]);
}

#[test]
fn occurrence_under_way_is_included() {
    let c = calendar(vec![event("meeting", MONDAY + 9 * HOUR, MONDAY + 11 * HOUR, DAY, vec![])]);
    let now = MONDAY + DAY + 10 * HOUR;
    let out = generate_at(&c, MONDAY + 3 * DAY, now);
    assert_eq!(starts(&out), vec![MONDAY + DAY + 9 * HOUR, MONDAY + 2 * DAY + 9 * HOUR]);
}

#[test]
fn past_horizon_still_shows_current_occurrence() {
    let c = calendar(vec![event("meeting", MONDAY + 9 * HOUR, MONDAY + 11 * HOUR, DAY, vec![])]);
    let now = MONDAY + 10 * HOUR;
    let out = generate_at(&c, MONDAY + 9 * HOUR + 1, now);
    assert_eq!(starts(&out), vec![MONDAY + 9 * HOUR]);
}

#[test]
fn one_shot_events_ignore_the_window() {
    let c = calendar(vec![
        event("old", MONDAY - 30 * DAY, MONDAY - 30 * DAY + HOUR, 0, vec![]),
        event("cancelled", MONDAY, MONDAY + HOUR, 0, vec![MONDAY]),
    ]);
    let out = generate_at(&c, MONDAY, MONDAY + DAY);
    assert_eq!(out.iter().map(|e| e.name()).collect::<Vec<_>>(), vec!["old"]);
}

#[test]
fn empty_calendar_expands_to_nothing() {
    let c = Calendar::new("empty");
    assert!(generate_at(&c, MONDAY, MONDAY).is_empty());
    assert!(generate_until(&c, MONDAY).is_empty());
}

#[test]
fn closest_start_of_a_daily_event() {
    let e = event("x", MONDAY + 9 * HOUR, MONDAY + 10 * HOUR, DAY, vec![]);
    assert_eq!(closest_occurence_start(&e, MONDAY + 3 * DAY), MONDAY + 3 * DAY + 9 * HOUR);
    assert_eq!(closest_occurence_start(&e, MONDAY), MONDAY + 9 * HOUR);
    // The event's first occurrence is under way: it stays where it is.
    assert_eq!(closest_occurence_start(&e, MONDAY + 9 * HOUR + 30 * 60), MONDAY + 9 * HOUR);
}

#[test]
fn update_moves_recurring_and_drops_ended() {
    let events = vec![
        event("daily", MONDAY + 9 * HOUR, MONDAY + 10 * HOUR, DAY, vec![]),
        event("past", MONDAY, MONDAY + HOUR, 0, vec![]),
        event("future", MONDAY + 5 * DAY, MONDAY + 5 * DAY + HOUR, 0, vec![]),
    ];
    let out = bring_up_to_date(&events, MONDAY + 2 * DAY + 12 * HOUR);
    assert_eq!(out.iter().map(|e| e.name()).collect::<Vec<_>>(), vec!["daily", "future"]);
    assert_eq!(out[0].start(), MONDAY + 3 * DAY + 9 * HOUR);
    assert_eq!(out[0].end(), MONDAY + 3 * DAY + 10 * HOUR);
}

#[test]
fn event_accessors() {
    let mut e = event("x", 100, 200, 0, vec![]);
    assert_eq!(e.duration(), 100);
    assert!(e.is_happening_on(100));
    assert!(!e.is_happening_on(200));
    e.set_repeat(50);
    e.set_priority(9);
    e.set_difficulty(1);
    e.set_start(110);
    e.set_end(220);
    e.set_name(&"y".to_string());
    e.exceptions_mut().push(160);
    assert_eq!((e.repeat(), e.priority(), e.difficulty(), e.start(), e.end()), (50, 9, 1, 110, 220));
    assert_eq!(e.name(), "y");
    assert_eq!(e.exceptions(), &vec![160]);
}

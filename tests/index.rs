use calmar::calendar_index::{CalendarIndex, CalmarError};
use calmar::calendar_ref::CalendarReference;
use calmar::commands::update_index;

fn reference(name: &str, path: &str, active: bool) -> CalendarReference {
    CalendarReference::new(name.to_string(), path.to_string(), active)
}

fn index_of(refs: Vec<CalendarReference>) -> CalendarIndex {
    let mut index = CalendarIndex::new();
    for r in refs {
        assert_eq!(index.add_entry(&r, false, false), Ok(vec![]));
    }
    index
}

fn summary(index: &CalendarIndex) -> Vec<(String, String, bool)> {
    index.calendars().iter().map(|r| (r.name(), r.path(), r.active())).collect()
}

#[test]
fn two_active_calendars_are_ambiguous() {
    let index = index_of(vec![reference("cal1", "/c/cal1.json", true), reference("cal2", "/c/cal2.json", true)]);
    match index.active_calendar_reference() {
        Err(e) => assert_eq!(e, CalmarError::ActiveCalendarCount { e: 2 }),
        Ok(_) => panic!("two active calendars must not resolve"),
    }
}

#[test]
fn no_active_calendar_is_an_error() {
    let index = index_of(vec![reference("cal1", "/c/cal1.json", false)]);
    match index.active_calendar_reference() {
        Err(e) => assert_eq!(e, CalmarError::ActiveCalendarCount { e: 0 }),
        Ok(_) => panic!("no calendar is active"),
    }
}

#[test]
fn set_active_leaves_one_active() {
    let mut index = index_of(vec![
        reference("work", "/c/work.json", true),
        reference("home", "/c/home.json", false),
        reference("gym", "/c/gym.json", false),
    ]);
    index.set_active("home".to_string());
    let active = index.active_calendar_reference().ok().expect("one active calendar");
    assert_eq!(active.name(), "home");
    assert_eq!(active.path(), "/c/home.json");
    assert_eq!(index.number_of_active_calendars(), 1);
    assert!(!index.calendars()[0].active());
    assert!(!index.calendars()[2].active());
}

#[test]
fn add_entry_declined_on_name_leaves_index() {
    let mut index = index_of(vec![reference("work", "/c/work.json", true), reference("home", "/c/home.json", false)]);
    let before = summary(&index);
    let r = index.add_entry(&reference("work", "/elsewhere/work.json", false), false, true);
    assert_eq!(r, Err(CalmarError::Aborted));
    assert_eq!(summary(&index), before);
}

#[test]
fn add_entry_declined_on_path_leaves_index() {
    let mut index = index_of(vec![reference("work", "/c/work.json", true), reference("home", "/c/home.json", false)]);
    let before = summary(&index);
    let r = index.add_entry(&reference("office", "/c/work.json", false), true, false);
    assert_eq!(r, Err(CalmarError::Aborted));
    assert_eq!(summary(&index), before);
}

#[test]
fn add_entry_overwrites_name_and_path() {
    let mut index = index_of(vec![
        reference("work", "/c/work.json", true),
        reference("home", "/c/home.json", false),
        reference("gym", "/c/new.json", false),
    ]);
    let r = index.add_entry(&reference("work", "/c/new.json", false), true, true);
    assert_eq!(r, Ok(vec!["/c/work.json".to_string(), "/c/new.json".to_string()]));
    assert_eq!(
        summary(&index),
        vec![
            ("home".to_string(), "/c/home.json".to_string(), false),
            ("work".to_string(), "/c/new.json".to_string(), false),
        ]
    );
}

#[test]
fn add_entry_without_collision_appends() {
    let mut index = CalendarIndex::new();
    assert_eq!(index.collisions(&reference("a", "/a.json", true)), (false, false));
    assert_eq!(index.add_entry(&reference("a", "/a.json", true), false, false), Ok(vec![]));
    assert_eq!(index.collisions(&reference("a", "/b.json", true)), (true, false));
    assert_eq!(index.collisions(&reference("b", "/a.json", true)), (false, true));
    assert_eq!(index.calendars().len(), 1);
}

#[test]
fn delete_entry_cases() {
    let mut index = index_of(vec![reference("a", "/a.json", true), reference("b", "/b.json", false)]);
    assert_eq!(index.delete_entry("missing".to_string()), Err(CalmarError::NotFound));
    assert_eq!(index.calendars().len(), 2);
    assert_eq!(index.delete_entry("b".to_string()), Ok("/b.json".to_string()));
    assert_eq!(summary(&index), vec![("a".to_string(), "/a.json".to_string(), true)]);
    index.calendars_mut().push(reference("a", "/a2.json", false));
    assert_eq!(index.num_named(&"a".to_string()), 2);
    assert_eq!(index.delete_entry("a".to_string()), Err(CalmarError::AmbiguousName { e: 2 }));
    assert_eq!(index.calendars().len(), 2);
}

#[test]
fn set_command_checks_names_and_active_count() {
    let mut index = index_of(vec![reference("a", "/a.json", false), reference("b", "/b.json", false)]);
    assert_eq!(calmar::commands::set(&mut index, "c".to_string()), Err(CalmarError::NotFound));
    assert_eq!(calmar::commands::set(&mut index, "b".to_string()), Ok(()));
    assert_eq!(index.active_calendar_reference().ok().map(|r| r.name()), Some("b".to_string()));
    index.calendars_mut()[0].set_active();
    assert_eq!(calmar::commands::set(&mut index, "a".to_string()), Err(CalmarError::ActiveCalendarCount { e: 2 }));
    index.calendars_mut().push(reference("a", "/a3.json", false));
    assert_eq!(calmar::commands::set(&mut index, "a".to_string()), Err(CalmarError::AmbiguousName { e: 2 }));
}

#[test]
fn update_index_drops_missing_files() {
    let mut index = index_of(vec![
        reference("a", "/a.json", true),
        reference("b", "/b.json", false),
        reference("c", "/c.json", false),
    ]);
    assert_eq!(update_index(&mut index, &vec![true, false, true]), 1);
    assert_eq!(index.calendars().iter().map(|r| r.name()).collect::<Vec<_>>(), vec!["a", "c"]);
}

#[test]
fn reference_setters() {
    let mut r = reference("a", "/a.json", false);
    r.set_name("b".to_string());
    r.set_path("/b.json".to_string());
    r.set_active();
    assert_eq!((r.name(), r.path(), r.active()), ("b".to_string(), "/b.json".to_string(), true));
    r.set_inactive();
    assert!(!r.active());
}

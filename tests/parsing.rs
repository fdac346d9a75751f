use calmar::calendar::Calendar;
use calmar::commands::{sort, SortError};
use calmar::duration::parse_into_duration;
use calmar::event::Event;
use calmar::parser::{check_quotes, handle_quotes};

const MINUTE: i64 = 60;
const HOUR: i64 = 3600;
const DAY: i64 = 86400;

#[test]
fn parse_duration() {
    assert_eq!(Some(15 * MINUTE), parse_into_duration("15m"));
    assert_eq!(Some(15 * MINUTE), parse_into_duration("15min"));
    assert_eq!(Some(15 * MINUTE), parse_into_duration("15 m"));
    assert_eq!(Some(15 * MINUTE), parse_into_duration("15 min"));
    assert_eq!(Some(4 * HOUR), parse_into_duration("4h"));
    assert_eq!(Some(4 * HOUR), parse_into_duration("4 h"));
    assert_eq!(Some(2 * DAY), parse_into_duration("2d"));
    assert_eq!(Some(2 * DAY), parse_into_duration("2 d"));
}

#[test]
fn parse_duration_edge_cases() {
    assert_eq!(parse_into_duration("   "), Some(0));
    assert_eq!(parse_into_duration("3 DAYS"), Some(3 * DAY));
    assert_eq!(parse_into_duration("7 hours"), Some(7 * HOUR));
    assert_eq!(parse_into_duration("10 minutes"), Some(10 * MINUTE));
    assert_eq!(parse_into_duration("-2d"), Some(-2 * DAY));
    assert_eq!(parse_into_duration("3dh"), None);
    assert_eq!(parse_into_duration("5"), None);
    assert_eq!(parse_into_duration("xd"), None);
    assert_eq!(parse_into_duration("99999999999999999999d"), None);
}

#[test]
fn quotes_pair_up() {
    assert!(check_quotes("set \"my cal\""));
    assert!(check_quotes("list"));
    assert!(!check_quotes("add \"oops"));
}

#[test]
fn command_lines_split_into_words_and_quotations() {
    assert_eq!(handle_quotes("add foo".to_string()), vec!["add", "foo"]);
    assert_eq!(handle_quotes("set \"my cal\"".to_string()), vec!["set", "my cal"]);
    assert_eq!(handle_quotes("add \"a b\" c".to_string()), vec!["add", "a b", "c"]);
    assert_eq!(handle_quotes("a\"b\"".to_string()), vec!["a", "b"]);
    assert_eq!(handle_quotes("x".to_string()), vec!["x"]);
    assert_eq!(handle_quotes("rm  a   b".to_string()), vec!["rm", "a", "b"]);
    assert_eq!(handle_quotes("add \"\"".to_string()), vec!["add", ""]);
    assert!(handle_quotes(String::new()).is_empty());
}

fn names(c: &Calendar) -> Vec<String> {
    c.events().iter().map(|e| e.name()).collect()
}

fn sample() -> Calendar {
    let mut c = Calendar::new("c");
    c.add_event(Event::new("b".to_string(), 300, 400, 0, 2, 9, vec![]));
    c.add_event(Event::new("c".to_string(), 100, 500, 0, 7, 1, vec![]));
    c.add_event(Event::new("a".to_string(), 300, 350, 0, 2, 5, vec![]));
    c
}

#[test]
fn sorting_by_each_key() {
    let mut c = sample();
    assert_eq!(sort(&mut c, None, None), Ok(()));
    assert_eq!(names(&c), vec!["c", "a", "b"]);
    let mut c = sample();
    assert_eq!(sort(&mut c, Some("name"), None), Ok(()));
    assert_eq!(names(&c), vec!["a", "b", "c"]);
    let mut c = sample();
    assert_eq!(sort(&mut c, Some("end"), Some("desc")), Ok(()));
    assert_eq!(names(&c), vec!["c", "b", "a"]);
    let mut c = sample();
    assert_eq!(sort(&mut c, Some("priority"), Some("asc")), Ok(()));
    assert_eq!(names(&c), vec!["b", "a", "c"]);
    let mut c = sample();
    assert_eq!(sort(&mut c, Some(" difficulty "), None), Ok(()));
    assert_eq!(names(&c), vec!["c", "a", "b"]);
    let mut c = sample();
    assert_eq!(sort(&mut c, Some("start"), Some("reverse")), Ok(()));
    assert_eq!(names(&c), vec!["a", "b", "c"]);
}

#[test]
fn sorting_refuses_unknown_arguments() {
    let mut c = sample();
    assert_eq!(sort(&mut c, Some("colour"), None), Err(SortError::InvalidKey));
    assert_eq!(names(&c), vec!["b", "c", "a"]);
    assert_eq!(sort(&mut c, Some("name"), Some("sideways")), Err(SortError::InvalidOrder));
    assert_eq!(names(&c), vec!["b", "c", "a"]);
}

use calmar::commands::{briefing_counts, check_config, default_or_custom_save_path, positions_named, remove, ConfigError};
use calmar::calendar::Calendar;
use calmar::config::Config;
use calmar::deadline::Deadline;
use calmar::event::Event;
use calmar::util::{duration_fmt, handle_unknown_command, levenshtein_distance, round_to_full_day};
use calmar::validator::is_numeric;

#[test]
fn levenshtein_examples() {
    assert_eq!(levenshtein_distance("kitten", "sitting"), 3);
    assert_eq!(levenshtein_distance("", "abc"), 3);
    assert_eq!(levenshtein_distance("abc", ""), 3);
    assert_eq!(levenshtein_distance("flaw", "lawn"), 2);
    assert_eq!(levenshtein_distance("same", "same"), 0);
}

#[test]
fn unknown_command_suggestions() {
    assert_eq!(handle_unknown_command("lst"), Some("list"));
    assert_eq!(handle_unknown_command("lsit"), Some("edit"));
    assert_eq!(handle_unknown_command("ad"), Some("add"));
    assert_eq!(handle_unknown_command("removcal"), Some("removecal"));
    assert_eq!(handle_unknown_command("zzzzzzzzzzzz"), None);
}

#[test]
fn durations_for_reading() {
    assert_eq!(duration_fmt(45), "45s");
    assert_eq!(duration_fmt(-30), "-30s");
    assert_eq!(duration_fmt(125), "2m 5s");
    assert_eq!(duration_fmt(3 * 3600 + 7 * 60 + 5), "3h 7m");
    assert_eq!(duration_fmt(2 * 86400 + 5 * 3600 + 30 * 60), "2d 5h 30m");
}

#[test]
fn end_of_day() {
    assert_eq!(round_to_full_day(1704067200 + 3600), 1704067200 + 86399);
    assert_eq!(round_to_full_day(1704067200), 1704067200 + 86399);
    assert_eq!(round_to_full_day(-1), -1);
}

#[test]
fn numeric_strings() {
    assert!(is_numeric("123"));
    assert!(is_numeric("٣"));
    assert!(!is_numeric(""));
    assert!(!is_numeric("1a"));
}

#[test]
fn default_config_and_its_check() {
    let c = Config::default("/home/u");
    assert_eq!(c.default_path, "/home/u/.calmar");
    assert_eq!(c.index_path, "/home/u/.config/calmar/index.json");
    assert_eq!(c.default_calendar_span, "7d");
    assert_eq!(check_config(&c), Ok(()));
    let mut bad = c.clone();
    bad.prompt_color = "purple".to_string();
    assert_eq!(check_config(&bad), Err(ConfigError::PromptColor));
    let mut bad = c.clone();
    bad.default_calendar_span = "-3d".to_string();
    assert_eq!(check_config(&bad), Err(ConfigError::CalendarSpan));
    let mut bad = c.clone();
    bad.time_format = "HH.MM".to_string();
    assert_eq!(check_config(&bad), Err(ConfigError::TimeFormat));
    let mut bad = c;
    bad.date_format = "MM/DD/YYYY".to_string();
    assert_eq!(check_config(&bad), Err(ConfigError::DateFormat));
}

#[test]
fn save_path_defaults_when_blank() {
    let d = "/home/u/.calmar".to_string();
    assert_eq!(default_or_custom_save_path("  ".to_string(), &d), d);
    assert_eq!(default_or_custom_save_path("/tmp".to_string(), &d), "/tmp");
}

#[test]
fn positions_of_named_items() {
    let names: Vec<String> = vec!["a", "b", "a", "c"].into_iter().map(String::from).collect();
    assert_eq!(positions_named(&names, &"a".to_string()), vec![0, 2]);
    assert!(positions_named(&names, &"z".to_string()).is_empty());
}

#[test]
fn remove_events_by_name() {
    let mut c = Calendar::new("c");
    for n in ["a", "b", "a", "c"] {
        c.add_event(Event::new(n.to_string(), 0, 60, 0, 1, 1, vec![]));
    }
    remove(&mut c, &vec!["a".to_string(), "z".to_string()]);
    assert_eq!(c.events().iter().map(|e| e.name()).collect::<Vec<_>>(), vec!["b", "c"]);
    assert_eq!(c.name(), "c");
}

#[test]
fn first_letter_in_upper_case() {
    assert_eq!(calmar::util::uppercase_first_letter("name"), "Name");
    assert_eq!(calmar::util::uppercase_first_letter("x"), "X");
    assert_eq!(calmar::util::uppercase_first_letter("1st"), "1st");
}

#[test]
fn briefing_numbers() {
    let day = 86400;
    let now = 1000 * day + 3600;
    let tomorrow = 1001 * day;
    let events = vec![
        Event::new("under way".to_string(), now - 60, now + 60, 0, 1, 1, vec![]),
        Event::new("later today".to_string(), now + 600, now + 1200, 0, 1, 1, vec![]),
        Event::new("tomorrow".to_string(), tomorrow + 10, tomorrow + 20, 0, 1, 1, vec![]),
        Event::new("ended".to_string(), now - 600, now - 300, 0, 1, 1, vec![]),
    ];
    let deadlines = vec![
        Deadline::new("soon".to_string(), now + 2 * day, 5),
        Deadline::new("later".to_string(), now + 10 * day, 5),
        Deadline::new("far".to_string(), now + 30 * day, 5),
    ];
    let counts = briefing_counts(&events, &deadlines, now, tomorrow, tomorrow + day, tomorrow + 6 * day, tomorrow + 13 * day);
    assert_eq!(counts, (2, 1, 1, 2));
}

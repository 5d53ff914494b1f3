use planner::{Date, Planner, PlannerError};

fn ymd(year: i32, month: u32, day: u32) -> Date {
    Date { year, month, day }
}

#[test]
fn add_event_unpadded_date() {
    let mut p = Planner::new();
    let e = p.add_event("my event", "2020-6-21").unwrap();
    assert_eq!(e.name, "my event");
    assert_eq!(e.date, ymd(2020, 6, 21));
    assert_eq!(e.id, 1);
    assert_eq!(p.count_events(), 1);
}

#[test]
fn add_event_padded_date() {
    let mut p = Planner::new();
    let e = p.add_event("my event", "2020-06-21").unwrap();
    assert_eq!(e.date, ymd(2020, 6, 21));
    assert_eq!(e.id, 1);
}

#[test]
fn ids_follow_the_count_from_empty() {
    let mut p = Planner::new();
    for (i, d) in ["2020-1-1", "2019-5-7", "2021-12-31"].iter().enumerate() {
        let e = p.add_event("x", d).unwrap();
        assert_eq!(e.id as usize, p.count_events());
        assert_eq!(e.id as usize, i + 1);
    }
}

#[test]
fn malformed_dates_are_rejected_without_change() {
    let mut p = Planner::new();
    p.add_event("kept", "2020-1-1").unwrap();
    for bad in ["2020/06/21", "not a date", "2020-13-01", "2021-2-29", "2020-6", ""] {
        assert_eq!(p.add_event("bad", bad), Err(PlannerError::DateParseFailure));
        assert_eq!(p.count_events(), 1);
    }
    assert_eq!(p.add_event("next", "2020-2-29").unwrap().id, 2);
}

#[test]
fn remove_from_empty_is_list_empty() {
    let mut p = Planner::new();
    assert_eq!(p.remove_event_by_id(1), Err(PlannerError::EventListEmpty));
    assert_eq!(p.remove_event_by_id(0), Err(PlannerError::EventListEmpty));
}

#[test]
fn remove_unknown_id_is_not_found() {
    let mut p = Planner::new();
    p.add_event("a", "2020-1-1").unwrap();
    assert_eq!(p.remove_event_by_id(7), Err(PlannerError::EventNotFound));
    assert_eq!(p.count_events(), 1);
}

#[test]
fn removal_keeps_order_and_generator() {
    let mut p = Planner::new();
    p.add_event("one", "2020-1-1").unwrap();
    p.add_event("two", "2020-1-2").unwrap();
    p.add_event("three", "2020-1-3").unwrap();
    assert_eq!(p.remove_event_by_id(2), Ok(()));
    assert_eq!(p.count_events(), 2);
    assert_eq!(p.get_keys(), vec![1, 3]);
    assert_eq!(p.events[0].name, "one");
    assert_eq!(p.events[1].name, "three");
    assert_eq!(p.add_event("four", "2020-1-4").unwrap().id, 4);
    assert_eq!(p.get_keys(), vec![1, 3, 4]);
}

#[test]
fn select_finds_by_id() {
    let mut p = Planner::new();
    p.add_event("a", "2020-1-1").unwrap();
    p.add_event("b", "2021-3-4").unwrap();
    let e = p.select(2).unwrap();
    assert_eq!(e.name, "b");
    assert_eq!(e.date, ymd(2021, 3, 4));
    assert!(p.select(3).is_none());
}

#[test]
fn date_parse_reads_fields() {
    assert_eq!(Date::parse("2320-03-01"), Some(ymd(2320, 3, 1)));
    assert_eq!(Date::parse("1999-12-31"), Some(ymd(1999, 12, 31)));
    assert_eq!(Date::parse("1999-12-32"), None);
}

#[test]
fn from_ymd_checks_the_calendar() {
    assert_eq!(Date::from_ymd(2020, 2, 29), Some(ymd(2020, 2, 29)));
    assert_eq!(Date::from_ymd(1900, 2, 29), None);
    assert_eq!(Date::from_ymd(2000, 2, 29), Some(ymd(2000, 2, 29)));
    assert_eq!(Date::from_ymd(2021, 4, 31), None);
    assert_eq!(Date::from_ymd(2021, 0, 1), None);
    assert_eq!(planner::date::month_length(2024, 2), 29);
    assert_eq!(planner::date::month_length(2023, 2), 28);
    assert_eq!(planner::date::month_length(2023, 9), 30);
}

#[test]
fn date_order() {
    assert!(ymd(2000, 12, 1).is_before(&ymd(2320, 1, 1)));
    assert!(ymd(2020, 1, 31).is_before(&ymd(2020, 2, 1)));
    assert!(!ymd(2020, 2, 1).is_before(&ymd(2020, 2, 1)));
    assert!(ymd(2020, 2, 1).in_same_month(&ymd(2020, 2, 28)));
    assert!(!ymd(2020, 2, 1).in_same_month(&ymd(2021, 2, 1)));
}

#[test]
fn sort_by_date_orders_and_keeps_ties() {
    let mut p = Planner::new();
    p.add_event("test2", "2320-02-01").unwrap();
    p.add_event("test-1", "2000-12-01").unwrap();
    p.add_event("test1", "2320-01-01").unwrap();
    p.add_event("same day b", "2320-02-01").unwrap();
    p.add_event("test3", "2320-03-01").unwrap();
    p.sort_by_date();
    let names: Vec<&str> = p.events.iter().map(|e| e.name.as_str()).collect();
    assert_eq!(names, vec!["test-1", "test1", "test2", "same day b", "test3"]);
    assert_eq!(p.get_keys(), vec![2, 3, 1, 4, 5]);
    assert_eq!(p.id_generator.curr, 5);
    assert_eq!(p.add_event("next", "2000-1-1").unwrap().id, 6);
}

#[test]
fn sort_empty_and_single() {
    let mut p = Planner::new();
    p.sort_by_date();
    assert_eq!(p, Planner::new());
    p.add_event("only", "2020-1-1").unwrap();
    p.sort_by_date();
    assert_eq!(p.get_keys(), vec![1]);
}

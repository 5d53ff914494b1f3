use planner::{Date, Planner, PlannerError};

#[test]
fn saved_text_is_exact() {
    let mut p = Planner::new();
    p.add_event("my event", "2020-6-21").unwrap();
    assert_eq!(p.save(), "current 1\nevent 1 2020 6 21 8 my event\n");
    assert_eq!(Planner::new().save(), "current 0\n");
}

#[test]
fn round_trip_empty() {
    let p = Planner::new();
    let text = p.save();
    assert_eq!(Planner::load(Some(&text)), Ok(Planner::new()));
}

#[test]
fn round_trip_with_events() {
    let mut p = Planner::new();
    p.add_event("first", "2020-6-21").unwrap();
    p.add_event("two\nlines and spaces ", "2320-2-1").unwrap();
    p.add_event("", "0-1-1").unwrap();
    p.add_event("ünïcödé", "2000-12-1").unwrap();
    p.remove_event_by_id(1).unwrap();
    let text = p.save();
    let back = Planner::load(Some(&text)).unwrap();
    assert_eq!(back, p);
    assert_eq!(back.id_generator.curr, 4);
}

#[test]
fn round_trip_negative_year() {
    let mut p = Planner::new();
    p.events.push(planner::Event { name: "old".to_string(), date: Date { year: -44, month: 3, day: 15 }, id: 1 });
    p.id_generator.curr = 1;
    let text = p.save();
    assert_eq!(text, "current 1\nevent 1 -44 3 15 3 old\n");
    assert_eq!(Planner::load(Some(&text)), Ok(p));
}

#[test]
fn missing_file_gives_new_planner() {
    assert_eq!(Planner::load(None), Ok(Planner::new()));
}

#[test]
fn corrupt_text_fails_to_load() {
    for bad in [
        "",
        "garbage",
        "current 01\n",
        "current 1\nevent 1 2020 6 21 8 my event",
        "current 1\nevent 1 2020 6 21 9 my event\n",
        "current 1\nevent 1 2020 2 30 1 x\n",
        "current 1\nevent 2 2020 2 3 1 x\n",
        "current 2\nevent 1 2020 2 3 1 x\nevent 1 2020 2 4 1 y\n",
        "current 1\nevent 0 2020 2 3 1 x\n",
        "current 1\nextra\n",
        "current 18446744073709551616\n",
    ] {
        assert_eq!(Planner::load(Some(bad)), Err(PlannerError::LoadFailure), "{:?}", bad);
    }
}

#[test]
fn largest_counter_loads() {
    let text = "current 18446744073709551615\n";
    let p = Planner::load(Some(text)).unwrap();
    assert_eq!(p.id_generator.curr, u64::MAX);
    assert_eq!(p.save(), text);
}

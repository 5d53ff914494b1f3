use planner::view::{calendar_grid, month_cells, month_ranges, partition_by_date};
use planner::{Date, Planner};

fn ymd(year: i32, month: u32, day: u32) -> Date {
    Date { year, month, day }
}

fn names(events: &[planner::Event]) -> Vec<&str> {
    events.iter().map(|e| e.name.as_str()).collect()
}

#[test]
fn partition_sorted_events() {
    let mut p = Planner::new();
    p.add_event("test-1", "2000-12-01").unwrap();
    p.add_event("test1", "2320-01-01").unwrap();
    p.add_event("test2", "2320-02-01").unwrap();
    p.add_event("test3", "2320-03-01").unwrap();
    let (past, upcoming) = partition_by_date(&p.events, ymd(2026, 10, 18));
    assert_eq!(names(&past), vec!["test-1"]);
    assert_eq!(names(&upcoming), vec!["test1", "test2", "test3"]);
}

#[test]
fn partition_unsorted_events_and_today_boundary() {
    let mut p = Planner::new();
    p.add_event("later", "2320-02-01").unwrap();
    p.add_event("today", "2026-10-18").unwrap();
    p.add_event("earlier", "2000-12-01").unwrap();
    p.add_event("yesterday", "2026-10-17").unwrap();
    let (past, upcoming) = partition_by_date(&p.events, ymd(2026, 10, 18));
    assert_eq!(names(&past), vec!["earlier", "yesterday"]);
    assert_eq!(names(&upcoming), vec!["later", "today"]);
}

#[test]
fn partition_all_past_or_all_upcoming() {
    let mut p = Planner::new();
    p.add_event("a", "2000-1-1").unwrap();
    p.add_event("b", "2001-1-1").unwrap();
    let (past, upcoming) = partition_by_date(&p.events, ymd(3000, 1, 1));
    assert_eq!(past.len(), 2);
    assert!(upcoming.is_empty());
    let (past, upcoming) = partition_by_date(&p.events, ymd(1000, 1, 1));
    assert!(past.is_empty());
    assert_eq!(upcoming.len(), 2);
}

#[test]
fn one_month_is_one_group() {
    let mut p = Planner::new();
    p.add_event("a", "2021-1-2").unwrap();
    p.add_event("b", "2021-1-2").unwrap();
    p.add_event("c", "2021-1-31").unwrap();
    assert_eq!(month_ranges(&p.events), vec![(0, 3)]);
}

#[test]
fn groups_split_on_month_and_year() {
    let mut p = Planner::new();
    p.add_event("a", "2020-1-5").unwrap();
    p.add_event("b", "2020-1-9").unwrap();
    p.add_event("c", "2021-1-9").unwrap();
    p.add_event("d", "2021-3-1").unwrap();
    assert_eq!(month_ranges(&p.events), vec![(0, 2), (2, 3), (3, 4)]);
    assert!(month_ranges(&Vec::new()).is_empty());
}

#[test]
fn grid_of_january_2021() {
    let grid = calendar_grid(ymd(2021, 1, 2)).unwrap();
    assert_eq!(
        grid,
        vec![
            [0, 0, 0, 0, 0, 1, 2],
            [3, 4, 5, 6, 7, 8, 9],
            [10, 11, 12, 13, 14, 15, 16],
            [17, 18, 19, 20, 21, 22, 23],
            [24, 25, 26, 27, 28, 29, 30],
            [31, 0, 0, 0, 0, 0, 0]
        ]
    );
}

#[test]
fn grid_of_february_2015_is_four_weeks() {
    let grid = calendar_grid(ymd(2015, 2, 10)).unwrap();
    assert_eq!(grid.len(), 4);
    assert_eq!(grid[0], [1, 2, 3, 4, 5, 6, 7]);
    assert_eq!(grid[3], [22, 23, 24, 25, 26, 27, 28]);
}

#[test]
fn no_grid_for_last_supported_month() {
    assert!(calendar_grid(ymd(262142, 12, 1)).is_none());
    assert!(calendar_grid(ymd(262142, 11, 1)).is_some());
}

#[test]
fn cells_hold_names_of_the_day() {
    let mut p = Planner::new();
    p.add_event("new year", "2021-1-1").unwrap();
    p.add_event("party", "2021-1-2").unwrap();
    p.add_event("cleanup", "2021-1-2").unwrap();
    p.add_event("next month", "2021-2-2").unwrap();
    let grid = calendar_grid(p.events[0].date).unwrap();
    let cells = month_cells(&p.events, 0, 3, &grid);
    assert_eq!(cells.len(), 6);
    assert_eq!(cells[0][5], vec!["new year".to_string()]);
    assert_eq!(cells[0][6], vec!["party".to_string(), "cleanup".to_string()]);
    assert!(cells[0][0].is_empty());
    assert!(cells[1][0].is_empty());
    assert!(cells[5][1].is_empty());
}

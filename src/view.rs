use vstd::prelude::*;
use crate::date::{Date, MAX_YEAR, days_in_month};
use crate::planner::{Event, EventView, sorted_by_date};

verus! {

pub open spec fn events_view(events: Seq<Event>) -> Seq<EventView> {
    events.map_values(|e: Event| e@)
}

/// Events dated strictly before `today`, in their current order.
pub open spec fn past_due(events: Seq<EventView>, today: Date) -> Seq<EventView> {
    events.filter(|e: EventView| e.date.lt(today))
}

/// Events dated on or after `today`, in their current order.
pub open spec fn upcoming(events: Seq<EventView>, today: Date) -> Seq<EventView> {
    events.filter(|e: EventView| !e.date.lt(today))
}

/// Splits `events` into those before `today` and those on or after it, keeping the order of
/// each part.  The events need not be sorted.
pub fn partition_by_date(events: &Vec<Event>, today: Date) -> (r: (Vec<Event>, Vec<Event>))
    ensures
        events_view(r.0@) == past_due(events_view(events@), today),
        events_view(r.1@) == upcoming(events_view(events@), today),
{
    let ghost evs = events_view(events@);
    let mut past: Vec<Event> = Vec::new();
    let mut future: Vec<Event> = Vec::new();
    let mut i: usize = 0;
    proof {
        reveal(Seq::filter);
        assert(evs.take(0) =~= Seq::<EventView>::empty());
        assert(events_view(past@) =~= Seq::<EventView>::empty());
        assert(events_view(future@) =~= Seq::<EventView>::empty());
    }
    while i < events.len()
        invariant
            i <= events.len(),
            evs == events_view(events@),
            events_view(past@) == past_due(evs.take(i as int), today),
            events_view(future@) == upcoming(evs.take(i as int), today),
        decreases events.len() - i,
    {
        let e = events[i].duplicate();
        proof {
            assert(evs.take(i + 1) =~= evs.take(i as int).push(evs[i as int]));
            evs.take(i as int).lemma_filter_push(evs[i as int], |e: EventView| e.date.lt(today));
            evs.take(i as int).lemma_filter_push(evs[i as int], |e: EventView| !e.date.lt(today));
        }
        let ghost old_past = past@;
        let ghost old_future = future@;
        if e.date.is_before(&today) {
            past.push(e);
            assert(events_view(past@) =~= events_view(old_past).push(evs[i as int]));
        } else {
            future.push(e);
            assert(events_view(future@) =~= events_view(old_future).push(evs[i as int]));
        }
        i = i + 1;
    }
    assert(evs.take(i as int) =~= evs);
    (past, future)
}

proof fn lemma_filter_prefix(es: Seq<EventView>, pred: spec_fn(EventView) -> bool, k: int)
    requires
        0 <= k <= es.len(),
        forall|i: int| 0 <= i < k ==> pred(#[trigger] es[i]),
        forall|i: int| k <= i < es.len() ==> !pred(#[trigger] es[i]),
    ensures
        es.filter(pred) == es.take(k),
    decreases es.len(),
{
    reveal(Seq::filter);
    if es.len() == 0 {
        assert(es.take(k) =~= es);
    } else if k == es.len() {
        let p = es.drop_last();
        lemma_filter_prefix(p, pred, k - 1);
        assert(p.take(k - 1) =~= p);
        assert(es.take(k) =~= p.push(es.last()));
    } else {
        let p = es.drop_last();
        lemma_filter_prefix(p, pred, k);
        assert(es.take(k) =~= p.take(k));
    }
}

proof fn lemma_filter_suffix(es: Seq<EventView>, pred: spec_fn(EventView) -> bool, k: int)
    requires
        0 <= k <= es.len(),
        forall|i: int| 0 <= i < k ==> !pred(#[trigger] es[i]),
        forall|i: int| k <= i < es.len() ==> pred(#[trigger] es[i]),
    ensures
        es.filter(pred) == es.skip(k),
    decreases es.len(),
{
    reveal(Seq::filter);
    if es.len() == 0 {
        assert(es.skip(k) =~= es);
    } else if k == es.len() {
        let p = es.drop_last();
        lemma_filter_suffix(p, pred, k - 1);
        assert(p.skip(k - 1) =~= Seq::<EventView>::empty());
        assert(es.skip(k) =~= Seq::<EventView>::empty());
    } else {
        let p = es.drop_last();
        lemma_filter_suffix(p, pred, k);
        assert(es.skip(k) =~= p.skip(k).push(es.last()));
    }
}

/// On events sorted by date the partition cuts the sequence once: the events before `today`
/// are a prefix and the others the rest, in date order.
pub proof fn lemma_sorted_partition_is_split(events: Seq<EventView>, today: Date)
    requires
        sorted_by_date(events),
    ensures
        exists|k: int|
            0 <= k <= events.len() && past_due(events, today) == events.take(k) && upcoming(
                events,
                today,
            ) == events.skip(k),
{
    let k = choose_split(events, today);
    lemma_choose_split(events, today);
    assert forall|i: int| k <= i < events.len() implies !(#[trigger] events[i]).date.lt(today) by {
        if i > k {
            assert(!events[i].date.lt(events[k].date));
        }
    }
    lemma_filter_prefix(events, |e: EventView| e.date.lt(today), k);
    lemma_filter_suffix(events, |e: EventView| !e.date.lt(today), k);
}

proof fn lemma_choose_split(events: Seq<EventView>, today: Date)
    ensures
        0 <= choose_split(events, today) <= events.len(),
        forall|i: int| 0 <= i < choose_split(events, today) ==> (#[trigger] events[i]).date.lt(today),
        choose_split(events, today) < events.len() ==> !events[choose_split(events, today)].date.lt(
            today,
        ),
    decreases events.len(),
{
    if events.len() > 0 && events[0].date.lt(today) {
        let rest = events.drop_first();
        lemma_choose_split(rest, today);
        assert forall|i: int| 0 <= i < choose_split(events, today) implies (#[trigger] events[i]).date.lt(today) by {
            if i > 0 {
                assert(events[i] == rest[i - 1]);
            }
        }
    }
}

/// Index of the first event on or after `today`, or the length where there is none.
spec fn choose_split(events: Seq<EventView>, today: Date) -> int
    decreases events.len(),
{
    if events.len() == 0 {
        0
    } else if !events[0].date.lt(today) {
        0
    } else {
        1 + choose_split(events.drop_first(), today)
    }
}

pub open spec fn dates_of(events: Seq<Event>) -> Seq<Date> {
    events.map_values(|e: Event| e.date)
}

/// `r` lists the ranges `[start, end)` of the maximal runs of consecutive dates that share
/// month and year, in order, covering all of `dates`.
pub open spec fn month_ranges_of(dates: Seq<Date>, r: Seq<(usize, usize)>) -> bool {
    &&& dates.len() == 0 <==> r.len() == 0
    &&& r.len() > 0 ==> r[0].0 == 0 && r[r.len() - 1].1 == dates.len()
    &&& forall|k: int| 0 <= k < r.len() ==> (#[trigger] r[k]).0 < r[k].1
    &&& forall|k: int| 0 <= k < r.len() - 1 ==> (#[trigger] r[k]).1 == r[k + 1].0
    &&& forall|k: int, i: int|
        0 <= k < r.len() && (#[trigger] r[k]).0 <= i < r[k].1 ==> (#[trigger] dates[i]).same_month(
            dates[r[k].0 as int],
        )
    &&& forall|k: int|
        0 < k < r.len() ==> !dates[(#[trigger] r[k]).0 - 1].same_month(dates[r[k].0 as int])
}

/// Groups consecutive events by month and year.  Sorted by date, the events give one group
/// per month.
pub fn month_ranges(events: &Vec<Event>) -> (r: Vec<(usize, usize)>)
    ensures
        month_ranges_of(dates_of(events@), r@),
{
    let ghost ds = dates_of(events@);
    let mut r: Vec<(usize, usize)> = Vec::new();
    if events.len() == 0 {
        return r;
    }
    let mut start: usize = 0;
    let mut i: usize = 1;
    while i < events.len()
        invariant
            ds == dates_of(events@),
            ds.len() == events.len(),
            start < i <= events.len(),
            r@.len() == 0 ==> start == 0,
            r@.len() > 0 ==> r@[0].0 == 0 && r@[r@.len() - 1].1 == start,
            forall|k: int| 0 <= k < r@.len() ==> (#[trigger] r@[k]).0 < r@[k].1,
            forall|k: int| 0 <= k < r@.len() - 1 ==> (#[trigger] r@[k]).1 == r@[k + 1].0,
            forall|k: int, j: int|
                0 <= k < r@.len() && (#[trigger] r@[k]).0 <= j < r@[k].1 ==> (#[trigger] ds[j]).same_month(
                    ds[r@[k].0 as int],
                ),
            forall|j: int| start <= j < i ==> (#[trigger] ds[j]).same_month(ds[start as int]),
            forall|k: int|
                0 < k < r@.len() ==> !ds[(#[trigger] r@[k]).0 - 1].same_month(ds[r@[k].0 as int]),
            start > 0 ==> !ds[start - 1].same_month(ds[start as int]),
        decreases events.len() - i,
    {
        if !events[i].date.in_same_month(&events[start].date) {
            let ghost old_r = r@;
            r.push((start, i));
            assert(forall|k: int| 0 <= k < old_r.len() ==> r@[k] == old_r[k]);
            start = i;
        }
        i = i + 1;
    }
    let ghost old_r = r@;
    r.push((start, i));
    assert(forall|k: int| 0 <= k < old_r.len() ==> r@[k] == old_r[k]);
    r
}

/// Weekday of the first day of a month, counted in days from Sunday (Sunday is 0).
pub uninterp spec fn first_weekday(year: int, month: int) -> int;

/// Day of the month shown in row `w`, column `d` (Sunday first) of a month grid whose first
/// day falls on weekday `first` and that has `len` days; 0 where no day of the month falls.
pub open spec fn grid_cell(first: int, len: int, w: int, d: int) -> int {
    let k = 7 * w + d - first + 1;
    if 1 <= k <= len {
        k
    } else {
        0
    }
}

/// The grid of weeks of the month of `date`, Sunday first, for a month whose first day falls
/// on weekday `first`: as many weeks as the month touches, each cell holding its day of the
/// month or 0.
pub open spec fn is_grid_from(date: Date, first: int, grid: Seq<[u32; 7]>) -> bool {
    let len = days_in_month(date.year as int, date.month as int);
    &&& grid.len() == (first + len + 6) / 7
    &&& forall|w: int, d: int|
        0 <= w < grid.len() && 0 <= d < 7 ==> #[trigger] grid[w]@[d] == grid_cell(first, len, w, d)
}

pub open spec fn is_month_grid(date: Date, grid: Seq<[u32; 7]>) -> bool {
    is_grid_from(date, first_weekday(date.year as int, date.month as int), grid)
}

/// Relies on `calendarize::calendarize`: for the month of the given date it returns one
/// array per week, Sunday first, holding the days of the month in order from the weekday
/// of the first day on, and 0 elsewhere; its first week therefore opens with day 1 or an
/// empty cell and closes on a day of the month.  It panics for the last month chrono supports.
#[verifier::external_body]
fn calendarize_month(date: Date) -> (r: Vec<[u32; 7]>)
    requires
        date.wf(),
        !(date.year == MAX_YEAR && date.month == 12),
    ensures
        is_grid_from(date, first_weekday(date.year as int, date.month as int), r@),
        r@.len() > 0 && r@[0]@[0] <= 1 && r@[0]@[6] != 0,
{
    calendarize::calendarize(
        chrono::NaiveDate::from_ymd_opt(date.year, date.month, date.day).unwrap(),
    )
}

/// The calendar grid of the month of `date`; none for the last month of the supported range,
/// whose following month cannot be represented.
pub fn calendar_grid(date: Date) -> (r: Option<Vec<[u32; 7]>>)
    requires
        date.wf(),
    ensures
        (date.year == MAX_YEAR && date.month == 12) <==> r is None,
        r matches Some(g) ==> is_month_grid(date, g@),
        r is Some ==> 0 <= first_weekday(date.year as int, date.month as int) < 7,
{
    if date.year == MAX_YEAR && date.month == 12 {
        None
    } else {
        let g = calendarize_month(date);
        assert(g@[0]@[0] == grid_cell(
            first_weekday(date.year as int, date.month as int),
            days_in_month(date.year as int, date.month as int),
            0,
            0,
        ));
        assert(g@[0]@[6] == grid_cell(
            first_weekday(date.year as int, date.month as int),
            days_in_month(date.year as int, date.month as int),
            0,
            6,
        ));
        Some(g)
    }
}

pub open spec fn names_view(names: Seq<String>) -> Seq<Seq<char>> {
    names.map_values(|s: String| s@)
}

/// Names of the events dated on day `day` of their month, in order.
pub open spec fn names_on_day(events: Seq<EventView>, day: int) -> Seq<Seq<char>> {
    events.filter(|e: EventView| e.date.day == day).map_values(|e: EventView| e.name)
}

/// Names of the events in `events[start..end]` that fall on day `day` of the month.
pub fn event_names_on_day(events: &Vec<Event>, start: usize, end: usize, day: u32) -> (r: Vec<
    String,
>)
    requires
        start <= end <= events.len(),
    ensures
        names_view(r@) == names_on_day(events_view(events@).subrange(start as int, end as int), day as int),
{
    let ghost evs = events_view(events@).subrange(start as int, end as int);
    let mut r: Vec<String> = Vec::new();
    let mut i: usize = start;
    proof {
        reveal(Seq::filter);
        assert(evs.take(0) =~= Seq::<EventView>::empty());
        assert(names_view(r@) =~= Seq::<Seq<char>>::empty());
    }
    while i < end
        invariant
            start <= i <= end <= events.len(),
            evs == events_view(events@).subrange(start as int, end as int),
            names_view(r@) == names_on_day(evs.take(i - start), day as int),
        decreases end - i,
    {
        let ghost k = i - start;
        proof {
            assert(evs.take(k + 1) =~= evs.take(k).push(evs[k]));
            evs.take(k).lemma_filter_push(evs[k], |e: EventView| e.date.day == day as int);
        }
        let ghost old_r = r@;
        if events[i].date.day == day {
            r.push(events[i].name.clone());
            assert(names_view(r@) =~= names_view(old_r).push(evs[k].name));
            assert(evs.take(k).filter(|e: EventView| e.date.day == day as int).push(evs[k]).map_values(
                |e: EventView| e.name,
            ) =~= names_on_day(evs.take(k), day as int).push(evs[k].name));
        }
        i = i + 1;
    }
    assert(evs.take(end - start) =~= evs);
    r
}

/// For each cell of `grid`, the names of the events in `events[start..end]` dated on that
/// day of the month; no names where the cell is 0.
pub fn month_cells(events: &Vec<Event>, start: usize, end: usize, grid: &Vec<[u32; 7]>) -> (r: Vec<
    Vec<Vec<String>>,
>)
    requires
        start <= end <= events.len(),
    ensures
        r@.len() == grid@.len(),
        forall|w: int| 0 <= w < r@.len() ==> (#[trigger] r@[w])@.len() == 7,
        forall|w: int, d: int|
            0 <= w < r@.len() && 0 <= d < 7 ==> names_view(#[trigger] r@[w]@[d]@) == if grid@[w]@[d]
                == 0 {
                Seq::<Seq<char>>::empty()
            } else {
                names_on_day(
                    events_view(events@).subrange(start as int, end as int),
                    grid@[w]@[d] as int,
                )
            },
{
    let mut r: Vec<Vec<Vec<String>>> = Vec::new();
    let mut w: usize = 0;
    while w < grid.len()
        invariant
            start <= end <= events.len(),
            w <= grid@.len(),
            r@.len() == w,
            forall|v: int| 0 <= v < w ==> (#[trigger] r@[v])@.len() == 7,
            forall|v: int, d: int|
                0 <= v < w && 0 <= d < 7 ==> names_view(#[trigger] r@[v]@[d]@) == if grid@[v]@[d]
                    == 0 {
                    Seq::<Seq<char>>::empty()
                } else {
                    names_on_day(
                        events_view(events@).subrange(start as int, end as int),
                        grid@[v]@[d] as int,
                    )
                },
        decreases grid@.len() - w,
    {
        let week: [u32; 7] = grid[w];
        let mut row: Vec<Vec<String>> = Vec::new();
        let mut d: usize = 0;
        while d < 7
            invariant
                start <= end <= events.len(),
                w < grid@.len(),
                week == grid@[w as int],
                d <= 7,
                row@.len() == d,
                forall|c: int|
                    0 <= c < d ==> names_view(#[trigger] row@[c]@) == if week@[c] == 0 {
                        Seq::<Seq<char>>::empty()
                    } else {
                        names_on_day(
                            events_view(events@).subrange(start as int, end as int),
                            week@[c] as int,
                        )
                    },
            decreases 7 - d,
        {
            let day = week[d];
            if day == 0 {
                let empty: Vec<String> = Vec::new();
                assert(names_view(empty@) =~= Seq::<Seq<char>>::empty());
                row.push(empty);
            } else {
                row.push(event_names_on_day(events, start, end, day));
            }
            d = d + 1;
        }
        r.push(row);
        w = w + 1;
    }
    r
}

/// Dates that all share one month of one year form exactly one group.
pub proof fn lemma_one_month_one_group(dates: Seq<Date>, r: Seq<(usize, usize)>)
    requires
        dates.len() > 0,
        forall|i: int| 0 <= i < dates.len() ==> (#[trigger] dates[i]).same_month(dates[0]),
        month_ranges_of(dates, r),
    ensures
        r.len() == 1,
        r[0] == (0usize, dates.len() as usize),
{
    if r.len() > 1 {
        let b = r[1].0 as int;
        assert(r[0].0 < r[0].1 && r[0].1 == b);
        assert(b <= r[r.len() - 1].0) by {
            assert forall|k: int| 1 <= k < r.len() implies r[1].0 <= #[trigger] r[k].0 by {
                if k > 1 {
                    assert(r[k - 1].1 == r[k].0);
                }
            }
        }
        assert(dates[b - 1].same_month(dates[0]));
        assert(dates[b].same_month(dates[0]));
        assert(!dates[b - 1].same_month(dates[b]));
    }
}

/// In a month grid every day of the month appears once, in the row and column of its week and
/// weekday; day 1 stands in the first row.
pub proof fn lemma_grid_holds_every_day(date: Date, grid: Seq<[u32; 7]>, day: int)
    requires
        is_month_grid(date, grid),
        0 <= first_weekday(date.year as int, date.month as int) < 7,
        1 <= day <= days_in_month(date.year as int, date.month as int),
    ensures
        ({
            let n = first_weekday(date.year as int, date.month as int) + day - 1;
            n / 7 < grid.len() && grid[n / 7]@[n % 7] == day
        }),
        grid[0]@[first_weekday(date.year as int, date.month as int)] == 1,
{
    let first = first_weekday(date.year as int, date.month as int);
    let len = days_in_month(date.year as int, date.month as int);
    let n = first + day - 1;
    vstd::arithmetic::div_mod::lemma_fundamental_div_mod(n, 7);
    vstd::arithmetic::div_mod::lemma_div_is_ordered(n, first + len + 6, 7);
    vstd::arithmetic::div_mod::lemma_fundamental_div_mod(first + len + 6, 7);
    assert(grid[n / 7]@[n % 7] == grid_cell(first, len, n / 7, n % 7));
    assert(grid[0]@[first] == grid_cell(first, len, 0, first));
}

} // verus!

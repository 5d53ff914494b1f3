use vstd::prelude::*;
use crate::date::{Date, parsed_ymd};
use crate::ident::{IDGenerator, Id};

verus! {

/// The ways an operation on a planner can fail.
#[derive(Clone, Copy, Debug, PartialEq, Eq, Structural)]
pub enum PlannerError {
    /// The date text is not of the form `YYYY-M-D`.
    DateParseFailure,
    /// A removal was asked of a planner without events.
    EventListEmpty,
    /// No event carries the identifier asked for.
    EventNotFound,
    /// Stored planner text could not be read back.
    LoadFailure,
    /// The planner could not be written out.
    SaveFailure,
}

/// One planned occurrence.
#[derive(Clone, Debug, PartialEq, Eq)]
pub struct Event {
    pub name: String,
    pub date: Date,
    pub id: Id,
}

pub struct EventView {
    pub name: Seq<char>,
    pub date: Date,
    pub id: Id,
}

impl View for Event {
    type V = EventView;

    open spec fn view(&self) -> EventView {
        EventView { name: self.name@, date: self.date, id: self.id }
    }
}

impl Event {
    /// A copy of this event.
    pub fn duplicate(&self) -> (r: Event)
        ensures
            r@ == self@,
    {
        Event { name: self.name.clone(), date: self.date, id: self.id }
    }
}

/// A named collection of dated events, with the generator of their identifiers.
#[derive(Debug, PartialEq, Eq)]
pub struct Planner {
    pub events: Vec<Event>,
    pub id_generator: IDGenerator,
}

pub struct PlannerView {
    pub events: Seq<EventView>,
    pub current: Id,
}

impl View for Planner {
    type V = PlannerView;

    open spec fn view(&self) -> PlannerView {
        PlannerView { events: self.events@.map_values(|e: Event| e@), current: self.id_generator.curr }
    }
}

/// Identifiers are positive, at most the generator's current value, and pairwise distinct;
/// dates are valid.
pub open spec fn events_wf(events: Seq<EventView>, current: Id) -> bool {
    &&& forall|i: int| 0 <= i < events.len() ==> 1 <= #[trigger] events[i].id <= current
    &&& forall|i: int| 0 <= i < events.len() ==> (#[trigger] events[i]).date.wf()
    &&& forall|i: int, j: int|
        0 <= i < events.len() && 0 <= j < events.len() && i != j ==> #[trigger] events[i].id
            != #[trigger] events[j].id
}

/// Dates never decrease along `events`.
pub open spec fn sorted_by_date(events: Seq<EventView>) -> bool {
    forall|a: int, b: int| 0 <= a < b < events.len() ==> !events[b].date.lt(events[a].date)
}

/// The events dated `d`, in their order.
pub open spec fn on_date(events: Seq<EventView>, d: Date) -> Seq<EventView> {
    events.filter(|e: EventView| e.date == d)
}

proof fn lemma_filter_none(es: Seq<EventView>, pred: spec_fn(EventView) -> bool)
    requires
        forall|k: int| 0 <= k < es.len() ==> !pred(#[trigger] es[k]),
    ensures
        es.filter(pred) == Seq::<EventView>::empty(),
    decreases es.len(),
{
    reveal(Seq::filter);
    if es.len() > 0 {
        lemma_filter_none(es.drop_last(), pred);
    }
}

/// Moving the element at `i` back to `j` keeps what `pred` selects, in order, where nothing
/// it passes over is selected along with it.
proof fn lemma_move_back_keeps_filter(
    s: Seq<EventView>,
    i: int,
    j: int,
    pred: spec_fn(EventView) -> bool,
)
    requires
        0 <= j <= i < s.len(),
        pred(s[i]) ==> forall|k: int| j <= k < i ==> !pred(#[trigger] s[k]),
    ensures
        s.remove(i).insert(j, s[i]).filter(pred) == s.filter(pred),
{
    broadcast use Seq::filter_distributes_over_add;

    let a = s.subrange(0, j);
    let b = s.subrange(j, i);
    let x = seq![s[i]];
    let c = s.subrange(i + 1, s.len() as int);
    assert(s =~= ((a + b) + x) + c);
    assert(s.remove(i).insert(j, s[i]) =~= ((a + x) + b) + c);
    reveal(Seq::filter);
    assert(x.drop_last() =~= Seq::<EventView>::empty());
    assert(Seq::<EventView>::empty().filter(pred) == Seq::<EventView>::empty());
    assert(x.last() == s[i]);
    if pred(s[i]) {
        assert forall|k: int| 0 <= k < b.len() implies !pred(#[trigger] b[k]) by {
            assert(b[k] == s[j + k]);
        }
        lemma_filter_none(b, pred);
        assert(b.filter(pred) + x.filter(pred) =~= x.filter(pred) + b.filter(pred));
    } else {
        assert(x.filter(pred) =~= Seq::<EventView>::empty());
        assert(b.filter(pred) + x.filter(pred) =~= x.filter(pred) + b.filter(pred));
    }
    assert(((a + b) + x).filter(pred) == (a.filter(pred) + b.filter(pred)) + x.filter(pred));
    assert(((a + x) + b).filter(pred) == (a.filter(pred) + x.filter(pred)) + b.filter(pred));
    assert((a.filter(pred) + b.filter(pred)) + x.filter(pred) =~= (a.filter(pred) + x.filter(
        pred,
    )) + b.filter(pred));
}

pub open spec fn has_id(events: Seq<EventView>, id: Id) -> bool {
    exists|i: int| 0 <= i < events.len() && #[trigger] events[i].id == id
}

impl PlannerView {
    pub open spec fn wf(&self) -> bool {
        events_wf(self.events, self.current)
    }

    /// The planner with no events and an unused generator.
    pub open spec fn empty() -> PlannerView {
        PlannerView { events: Seq::empty(), current: 0 }
    }
}

/// What adding an event named `name` on the date written `date` does: on a date that parses,
/// an event with the next identifier is appended and returned; otherwise nothing changes.
pub open spec fn added(
    before: PlannerView,
    after: PlannerView,
    name: Seq<char>,
    date: Seq<char>,
    r: Result<Event, PlannerError>,
) -> bool {
    match parsed_ymd(date) {
        None => r == Err::<Event, PlannerError>(PlannerError::DateParseFailure) && after == before,
        Some(ymd) => r matches Ok(e) && e@.name == name && e@.date.ymd() == ymd && e@.id
            == before.current + 1 && after == (PlannerView {
            events: before.events.push(e@),
            current: e@.id,
        }),
    }
}

/// What removing the event with identifier `id` does: `EventListEmpty` on an empty planner,
/// `EventNotFound` where no event has `id`, both leaving it unchanged; otherwise that event
/// leaves and the rest keep their order and the generator.
pub open spec fn removed(
    before: PlannerView,
    after: PlannerView,
    id: Id,
    r: Result<(), PlannerError>,
) -> bool {
    &&& before.events.len() == 0 ==> r == Err::<(), PlannerError>(PlannerError::EventListEmpty)
    &&& before.events.len() > 0 && !has_id(before.events, id) ==> r == Err::<(), PlannerError>(
        PlannerError::EventNotFound,
    )
    &&& has_id(before.events, id) ==> r is Ok
    &&& r is Err ==> after == before
    &&& r is Ok ==> after.current == before.current && forall|i: int|
        0 <= i < before.events.len() && #[trigger] before.events[i].id == id ==> after.events
            == before.events.remove(i)
}

impl Planner {
    pub open spec fn wf(&self) -> bool {
        self@.wf()
    }

    pub fn new() -> (r: Planner)
        ensures
            r@ == PlannerView::empty(),
            r.wf(),
    {
        let r = Planner { events: Vec::new(), id_generator: IDGenerator::new() };
        assert(r@.events =~= Seq::empty());
        r
    }

    /// Number of events held.
    pub fn count_events(&self) -> (r: usize)
        ensures
            r == self@.events.len(),
    {
        self.events.len()
    }

    /// Parses `date` as `YYYY-M-D` and appends an event with a fresh identifier.
    ///
    /// On a date that does not parse nothing changes.
    pub fn add_event(&mut self, name: &str, date: &str) -> (r: Result<Event, PlannerError>)
        requires
            old(self).wf(),
            old(self).id_generator.curr < u64::MAX,
        ensures
            final(self).wf(),
            added(old(self)@, final(self)@, name@, date@, r),
    {
        match Date::parse(date) {
            None => Err(PlannerError::DateParseFailure),
            Some(d) => {
                let id = self.id_generator.next_id();
                let e = Event { name: name.to_owned(), date: d, id };
                let copy = e.duplicate();
                self.events.push(e);
                assert(self@.events =~= old(self)@.events.push(copy@));
                Ok(copy)
            },
        }
    }

    /// Removes the event that carries `id`, keeping the others in order.
    ///
    /// The generator is untouched: identifiers are never issued twice.
    pub fn remove_event_by_id(&mut self, id: Id) -> (r: Result<(), PlannerError>)
        requires
            old(self).wf(),
        ensures
            final(self).wf(),
            removed(old(self)@, final(self)@, id, r),
    {
        if self.events.len() == 0 {
            return Err(PlannerError::EventListEmpty);
        }
        match self.position_of(id) {
            None => Err(PlannerError::EventNotFound),
            Some(i) => {
                self.events.remove(i);
                assert(self@.events =~= old(self)@.events.remove(i as int));
                Ok(())
            },
        }
    }

    /// Index of the first event that carries `id`.
    fn position_of(&self, id: Id) -> (r: Option<usize>)
        ensures
            match r {
                None => !has_id(self@.events, id),
                Some(i) => i < self@.events.len() && self@.events[i as int].id == id && forall|
                    j: int,
                | 0 <= j < i ==> self@.events[j].id != id,
            },
    {
        let mut i: usize = 0;
        while i < self.events.len()
            invariant
                i <= self.events.len(),
                forall|j: int| 0 <= j < i ==> self@.events[j].id != id,
            decreases self.events.len() - i,
        {
            if self.events[i].id == id {
                return Some(i);
            }
            i = i + 1;
        }
        None
    }

    /// A copy of the event that carries `id`, if any.
    pub fn select(&self, id: Id) -> (r: Option<Event>)
        ensures
            match r {
                None => !has_id(self@.events, id),
                Some(e) => e.id == id && exists|i: int|
                    0 <= i < self@.events.len() && self@.events[i] == e@ && forall|j: int|
                        0 <= j < i ==> self@.events[j].id != id,
            },
    {
        match self.position_of(id) {
            None => None,
            Some(i) => Some(self.events[i].duplicate()),
        }
    }

    /// Puts the events in chronological order; events on the same date keep their order.
    pub fn sort_by_date(&mut self)
        requires
            old(self).wf(),
        ensures
            final(self).wf(),
            final(self)@.current == old(self)@.current,
            final(self)@.events.to_multiset() == old(self)@.events.to_multiset(),
            sorted_by_date(final(self)@.events),
            forall|d: Date| #[trigger]
                on_date(final(self)@.events, d) == on_date(old(self)@.events, d),
    {
        let mut i: usize = 1;
        if self.events.len() == 0 {
            return;
        }
        while i < self.events.len()
            invariant
                1 <= i <= self.events.len(),
                self.wf(),
                self@.current == old(self)@.current,
                self@.events.to_multiset() == old(self)@.events.to_multiset(),
                forall|a: int, b: int|
                    0 <= a < b < i ==> !self@.events[b].date.lt(self@.events[a].date),
                forall|d: Date| #[trigger]
                    on_date(self@.events, d) == on_date(old(self)@.events, d),
            decreases self.events.len() - i,
        {
            let ghost before = self@.events;
            let x = self.events.remove(i);
            let ghost xv = x@;
            assert(self@.events =~= before.remove(i as int));
            let mut j: usize = 0;
            while j < i && !x.date.is_before(&self.events[j].date)
                invariant
                    j <= i < before.len(),
                    self@.events == before.remove(i as int),
                    self.events@.len() == before.len() - 1,
                    x@ == xv,
                    forall|k: int| 0 <= k < j ==> !xv.date.lt(before[k].date),
                decreases i - j,
            {
                assert(self@.events[j as int] == before[j as int]);
                j = j + 1;
            }
            self.events.insert(j, x);
            proof {
                let after = self@.events;
                assert(after =~= before.remove(i as int).insert(j as int, xv));
                assert(before[i as int] == xv);
                before.to_multiset_ensures();
                vstd::seq_lib::to_multiset_remove(before, i as int);
                vstd::seq_lib::to_multiset_insert(before.remove(i as int), j as int, xv);
                assert(before.to_multiset().remove(xv).insert(xv) =~= before.to_multiset());
                assert(after.to_multiset() == before.to_multiset());
                assert forall|k: int| j <= k < i implies #[trigger] before[k].date != xv.date by {
                    assert(xv.date.lt(before[j as int].date));
                    if k > j {
                        assert(!before[k].date.lt(before[j as int].date));
                    }
                }
                assert forall|d: Date| #[trigger] on_date(after, d) == on_date(before, d) by {
                    lemma_move_back_keeps_filter(before, i as int, j as int, |e: EventView| e.date == d);
                }
                assert forall|k: int| 0 <= k < after.len() implies #[trigger] after[k] == (if k < j {
                    before[k]
                } else if k == j {
                    before[i as int]
                } else if k <= i {
                    before[k - 1]
                } else {
                    before[k]
                }) by {}
                assert forall|a: int, b: int|
                    0 <= a < after.len() && 0 <= b < after.len() && a != b implies #[trigger] after[a].id
                        != #[trigger] after[b].id by {
                    let ia = if a < j { a } else if a == j { i as int } else if a <= i { a - 1 } else { a };
                    let ib = if b < j { b } else if b == j { i as int } else if b <= i { b - 1 } else { b };
                    assert(after[a] == before[ia]);
                    assert(after[b] == before[ib]);
                }
                assert forall|a: int, b: int| 0 <= a < b < i + 1 implies !after[b].date.lt(after[a].date) by {
                    if b == j {
                        assert(!xv.date.lt(before[a].date));
                    } else if a == j {
                        assert(xv.date.lt(before[j as int].date));
                        if j < b - 1 {
                            assert(!before[b - 1].date.lt(before[j as int].date));
                        }
                    } else {
                        let ia = if a < j { a } else { a - 1 };
                        let ib = if b < j { b } else { b - 1 };
                        assert(after[a] == before[ia]);
                        assert(after[b] == before[ib]);
                    }
                }
            }
            i = i + 1;
        }
    }

    /// The identifiers of all events, in the order of the events.
    pub fn get_keys(&self) -> (r: Vec<Id>)
        ensures
            r@ == self@.events.map_values(|e: EventView| e.id),
    {
        let mut r: Vec<Id> = Vec::new();
        let mut i: usize = 0;
        while i < self.events.len()
            invariant
                i <= self.events.len(),
                r@ == self@.events.take(i as int).map_values(|e: EventView| e.id),
            decreases self.events.len() - i,
        {
            r.push(self.events[i].id);
            i = i + 1;
            assert(self@.events.take(i as int) =~= self@.events.take(i - 1).push(self@.events[i - 1]));
        }
        assert(self@.events.take(i as int) =~= self@.events);
        r
    }
}

/// Where every identifier issued so far is still held (nothing was removed), adding an event
/// hands out the identifier equal to the new number of events: 1, 2, 3, ... from empty.
pub proof fn lemma_ids_follow_count(
    before: PlannerView,
    after: PlannerView,
    name: Seq<char>,
    date: Seq<char>,
    r: Result<Event, PlannerError>,
)
    requires
        before.current == before.events.len(),
        parsed_ymd(date) is Some,
        added(before, after, name, date, r),
    ensures
        r matches Ok(e) && e.id == after.events.len(),
        after.current == after.events.len(),
{
}

/// Removing an event does not rewind the generator: the next event added gets the identifier
/// after every one issued before the removal.
pub proof fn lemma_removal_keeps_generator(
    p0: PlannerView,
    p1: PlannerView,
    p2: PlannerView,
    id: Id,
    removal: Result<(), PlannerError>,
    name: Seq<char>,
    date: Seq<char>,
    r: Result<Event, PlannerError>,
)
    requires
        p0.wf(),
        removed(p0, p1, id, removal),
        added(p1, p2, name, date, r),
        parsed_ymd(date) is Some,
    ensures
        r matches Ok(e) && e.id == p0.current + 1,
        forall|i: int| 0 <= i < p0.events.len() ==> #[trigger] p0.events[i].id < p0.current + 1,
{
}

} // verus!

use vstd::prelude::*;

use crate::deadline::{Deadline, DeadlineView};
use crate::event::{Event, EventView};

verus! {

pub ghost struct CalendarView {
    pub name: Seq<char>,
    pub events: Seq<EventView>,
    pub deadlines: Seq<DeadlineView>,
}

pub open spec fn events_view(v: Seq<Event>) -> Seq<EventView> {
    v.map_values(|e: Event| e@)
}

pub open spec fn deadlines_view(v: Seq<Deadline>) -> Seq<DeadlineView> {
    v.map_values(|d: Deadline| d@)
}

/// A named, ordered collection of event definitions, with deadlines.
#[derive(Clone, Debug)]
pub struct Calendar {
    name: String,
    events: Vec<Event>,
    deadlines: Vec<Deadline>,
}

impl View for Calendar {
    type V = CalendarView;

    closed spec fn view(&self) -> CalendarView {
        CalendarView {
            name: self.name@,
            events: events_view(self.events@),
            deadlines: deadlines_view(self.deadlines@),
        }
    }
}

impl Calendar {
    /// An empty calendar.
    pub fn new(name: &str) -> (r: Self)
        ensures
            r@ == (CalendarView {
                name: name@,
                events: Seq::<EventView>::empty(),
                deadlines: Seq::<DeadlineView>::empty(),
            }),
    {
        let r = Calendar { name: name.to_owned(), events: Vec::new(), deadlines: Vec::new() };
        assert(r@.events =~= Seq::<EventView>::empty());
        assert(r@.deadlines =~= Seq::<DeadlineView>::empty());
        r
    }

    /// A calendar with the given contents.
    pub fn from_parts(name: String, events: Vec<Event>, deadlines: Vec<Deadline>) -> (r: Self)
        ensures
            r@ == (CalendarView {
                name: name@,
                events: events_view(events@),
                deadlines: deadlines_view(deadlines@),
            }),
    {
        Calendar { name, events, deadlines }
    }

    pub fn name(&self) -> (r: String)
        ensures
            r@ == self@.name,
    {
        self.name.clone()
    }

    pub fn events(&self) -> (r: &Vec<Event>)
        ensures
            events_view(r@) == self@.events,
    {
        &self.events
    }

    pub fn events_mut(&mut self) -> (r: &mut Vec<Event>)
        ensures
            events_view(r@) == old(self)@.events,
            final(self)@ == (CalendarView { events: events_view(final(r)@), ..old(self)@ }),
    {
        &mut self.events
    }

    pub fn deadlines(&self) -> (r: &Vec<Deadline>)
        ensures
            deadlines_view(r@) == self@.deadlines,
    {
        &self.deadlines
    }

    pub fn deadlines_mut(&mut self) -> (r: &mut Vec<Deadline>)
        ensures
            deadlines_view(r@) == old(self)@.deadlines,
            final(self)@ == (CalendarView { deadlines: deadlines_view(final(r)@), ..old(self)@ }),
    {
        &mut self.deadlines
    }

    pub fn set_name(&mut self, name: String)
        ensures
            final(self)@ == (CalendarView { name: name@, ..old(self)@ }),
    {
        self.name = name;
    }

    pub fn add_event(&mut self, event: Event)
        ensures
            final(self)@ == (CalendarView { events: old(self)@.events.push(event@), ..old(self)@ }),
    {
        self.events.push(event);
        assert(events_view(self.events@) =~= old(self)@.events.push(event@));
    }

    pub fn add_deadline(&mut self, deadline: Deadline)
        ensures
            final(self)@ == (CalendarView {
                deadlines: old(self)@.deadlines.push(deadline@),
                ..old(self)@
            }),
    {
        self.deadlines.push(deadline);
        assert(deadlines_view(self.deadlines@) =~= old(self)@.deadlines.push(deadline@));
    }

    pub fn set_events(&mut self, events: Vec<Event>)
        ensures
            final(self)@ == (CalendarView { events: events_view(events@), ..old(self)@ }),
    {
        self.events = events;
    }
}

} // verus!

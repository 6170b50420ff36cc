//! The shapes of the scheduling feed: events, days, layers and weeks.
use vstd::prelude::*;

verus! {

/// One scheduled shift of one person.
#[derive(Debug, Clone, PartialEq, Eq)]
pub struct Event {
    /// Who works the shift.
    pub person: String,
    pub event_type: String,
    /// The day of the shift, as `YYYY-MM-DD`.
    pub date: String,
    /// The time range as the feed displays it.
    pub start_to_end: String,
    /// Local start time, `YYYY-MM-DDTHH:MM:SS`, without an offset.
    pub start: String,
    /// Local end time, `YYYY-MM-DDTHH:MM:SS`, without an offset.
    pub end: String,
}

/// One week of the feed.
#[derive(Debug, Clone, PartialEq, Eq)]
pub struct Week {
    pub start_date: String,
    /// The last day that the payload covers, as `YYYY-MM-DD`.
    pub end_date: String,
    pub schedule: Vec<Rooster>,
}

/// One layer of a week's schedule, a category of shifts.
#[derive(Debug, Clone, PartialEq, Eq)]
pub struct Rooster {
    pub name: String,
    pub days: Vec<Day>,
}

/// The events of one day within one layer.
#[derive(Debug, Clone, PartialEq, Eq)]
pub struct Day {
    pub date: String,
    pub events: Vec<Event>,
}

/// The events of a run of days, day after day.
pub open spec fn day_events(days: Seq<Day>) -> Seq<Event>
    decreases days.len(),
{
    if days.len() == 0 {
        Seq::empty()
    } else {
        day_events(days.drop_last()) + days.last().events@
    }
}

/// The events of a run of layers, layer after layer.
pub open spec fn layer_events(layers: Seq<Rooster>) -> Seq<Event>
    decreases layers.len(),
{
    if layers.len() == 0 {
        Seq::empty()
    } else {
        layer_events(layers.drop_last()) + day_events(layers.last().days@)
    }
}

impl Event {
    /// A copy of the event, field by field.
    pub fn duplicate(&self) -> (r: Event)
        ensures
            r == *self,
    {
        Event {
            person: self.person.clone(),
            event_type: self.event_type.clone(),
            date: self.date.clone(),
            start_to_end: self.start_to_end.clone(),
            start: self.start.clone(),
            end: self.end.clone(),
        }
    }
}

impl Week {
    /// Every event of the week, layer by layer and day by day.
    pub open spec fn events(self) -> Seq<Event> {
        layer_events(self.schedule@)
    }

    /// Every event of the week, layer by layer and day by day.
    pub fn all_events(&self) -> (r: Vec<Event>)
        ensures
            r@ == self.events(),
    {
        let layers = &self.schedule;
        let mut out: Vec<Event> = Vec::new();
        let mut i: usize = 0;
        while i < layers.len()
            invariant
                i <= layers@.len(),
                out@ == layer_events(layers@.take(i as int)),
            decreases layers@.len() - i,
        {
            let days = &layers[i].days;
            let mut j: usize = 0;
            while j < days.len()
                invariant
                    i < layers@.len(),
                    days == layers@[i as int].days,
                    j <= days@.len(),
                    out@ == layer_events(layers@.take(i as int)) + day_events(days@.take(j as int)),
                decreases days@.len() - j,
            {
                let events = &days[j].events;
                let mut k: usize = 0;
                while k < events.len()
                    invariant
                        j < days@.len(),
                        events == days@[j as int].events,
                        k <= events@.len(),
                        out@ == layer_events(layers@.take(i as int)) + day_events(
                            days@.take(j as int),
                        ) + events@.take(k as int),
                    decreases events@.len() - k,
                {
                    out.push(events[k].duplicate());
                    proof {
                        assert(events@.take(k + 1) == events@.take(k as int).push(events@[k as int]));
                    }
                    k = k + 1;
                }
                proof {
                    assert(events@.take(k as int) == events@);
                    assert(days@.take(j + 1).drop_last() == days@.take(j as int));
                    assert(days@.take(j + 1).last() == days@[j as int]);
                }
                j = j + 1;
            }
            proof {
                assert(days@.take(j as int) == days@);
                assert(layers@.take(i + 1).drop_last() == layers@.take(i as int));
                assert(layers@.take(i + 1).last() == layers@[i as int]);
            }
            i = i + 1;
        }
        proof {
            assert(layers@.take(i as int) == layers@);
        }
        out
    }
}

} // verus!

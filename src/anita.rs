//! Collecting one employee's shifts of one calendar month from the feed.
//!
//! The feed is asked for one week at a time. `MonthFetch` holds what has
//! been collected and decides, from each week it is handed, whether another
//! week is needed; whoever talks to the feed runs that loop.
use vstd::prelude::*;

use crate::calendar::{
    first_day_out_of_scope, iso_date_of, month_prefix, month_prefix_text, parse_iso_date, spec_boundary,
    spec_start_week, start_week, Date,
};
use crate::event::{Event, Week};
use crate::text::{has_prefix, parse_digits, spec_parse_digits, spec_split_once, split_once};

verus! {

/// Why collecting a month of shifts failed.
#[derive(Debug, Clone, PartialEq, Eq)]
pub enum AnitaError {
    /// The month is not in 1 to 12.
    InvalidMonth,
    /// A date or week index that the collection needs is out of range.
    DateRange,
    /// No session credential for the feed is configured.
    AuthenticationMissing,
    /// The feed could not be reached.
    Network(String),
    /// A week payload did not have the expected shape.
    MalformedPayload,
    /// The payloads ran out before one reached the end of the month.
    IncompleteMonth,
    /// A month was not written as `YYYY-MM`.
    InvalidMonthNotation,
}

/// The shifts of one employee, as the feed names them.
#[derive(Debug, Clone)]
pub struct Anita {
    employee: String,
}

/// Whether an event is kept: its date starts with the month's prefix and it
/// belongs to the employee.
pub open spec fn is_kept(e: Event, employee: Seq<char>, prefix: Seq<char>) -> bool {
    prefix.is_prefix_of(e.date@) && e.person@ == employee
}

/// The kept events, in their order.
pub open spec fn kept_events(evs: Seq<Event>, employee: Seq<char>, prefix: Seq<char>) -> Seq<Event>
    decreases evs.len(),
{
    if evs.len() == 0 {
        Seq::empty()
    } else {
        let rest = kept_events(evs.drop_last(), employee, prefix);
        if is_kept(evs.last(), employee, prefix) {
            rest.push(evs.last())
        } else {
            rest
        }
    }
}

/// What a month collection knows between two weeks.
pub struct FetchView {
    pub employee: Seq<char>,
    pub year: int,
    pub month: int,
    /// The first day after the month.
    pub boundary: Date,
    /// The week index to ask for next.
    pub week: int,
    /// The events kept so far, in the order they came.
    pub events: Seq<Event>,
    /// Whether a week that reaches the boundary has come.
    pub done: bool,
}

/// The state before the first week.
pub open spec fn initial_fetch(employee: Seq<char>, year: int, month: int, boundary: Date) -> FetchView {
    FetchView {
        employee,
        year,
        month,
        boundary,
        week: spec_start_week(month),
        events: Seq::empty(),
        done: false,
    }
}

/// The date with the given fields.
pub open spec fn date_from_fields(t: (int, int, int)) -> Date {
    Date { year: t.0 as i32, month: t.1 as u32, day: t.2 as u32 }
}

/// What handing one more week to a collection in state `s` gives: its kept
/// events are added, and the collection is done once the week ends on or
/// after the boundary. A week whose end date does not read as a date is
/// malformed; a week index that would pass `u32::MAX` is out of range.
pub open spec fn spec_receive(s: FetchView, w: Week) -> Result<FetchView, AnitaError> {
    let kept = kept_events(w.events(), s.employee, month_prefix(s.year, s.month as nat));
    match iso_date_of(w.end_date@) {
        None => Err(AnitaError::MalformedPayload),
        Some(t) => if s.boundary.spec_le(date_from_fields(t)) {
            Ok(FetchView { events: s.events + kept, done: true, ..s })
        } else if s.week >= u32::MAX {
            Err(AnitaError::DateRange)
        } else {
            Ok(FetchView { events: s.events + kept, week: s.week + 1, ..s })
        },
    }
}

/// Handing the weeks `ws` to a collection in state `s`, one by one, until
/// it is done: the events kept and how many weeks were used.
pub open spec fn replay(s: FetchView, ws: Seq<Week>) -> Result<(Seq<Event>, nat), AnitaError>
    decreases ws.len(),
{
    if ws.len() == 0 {
        Err(AnitaError::IncompleteMonth)
    } else {
        match spec_receive(s, ws[0]) {
            Err(e) => Err(e),
            Ok(s2) => if s2.done {
                Ok((s2.events, 1nat))
            } else {
                match replay(s2, ws.drop_first()) {
                    Err(e) => Err(e),
                    Ok((evs, n)) => Ok((evs, n + 1)),
                }
            },
        }
    }
}

/// Collecting `month` of `year` for `employee` from the weeks `ws`, which
/// stand for the feed's answers from the month's first week index on.
pub open spec fn spec_collect(employee: Seq<char>, year: int, month: int, ws: Seq<Week>) -> Result<
    (Seq<Event>, nat),
    AnitaError,
> {
    if !(1 <= month <= 12) {
        Err(AnitaError::InvalidMonth)
    } else {
        match spec_boundary(year, month) {
            None => Err(AnitaError::DateRange),
            Some(b) => replay(initial_fetch(employee, year, month, b), ws),
        }
    }
}

/// `r` with `i` more weeks counted.
pub open spec fn count_more(r: Result<(Seq<Event>, nat), AnitaError>, i: nat) -> Result<
    (Seq<Event>, nat),
    AnitaError,
> {
    match r {
        Ok((evs, n)) => Ok((evs, n + i)),
        Err(e) => Err(e),
    }
}

/// The events and the count of weeks of an executable result.
pub open spec fn collected(r: Result<(Vec<Event>, usize), AnitaError>) -> Result<
    (Seq<Event>, nat),
    AnitaError,
> {
    match r {
        Ok((evs, n)) => Ok((evs@, n as nat)),
        Err(e) => Err(e),
    }
}

/// A month collection in progress.
pub struct MonthFetch {
    employee: String,
    year: i32,
    month: u32,
    prefix: String,
    boundary: Date,
    week: u32,
    events: Vec<Event>,
    done: bool,
}

impl View for MonthFetch {
    type V = FetchView;

    closed spec fn view(&self) -> FetchView {
        FetchView {
            employee: self.employee@,
            year: self.year as int,
            month: self.month as int,
            boundary: self.boundary,
            week: self.week as int,
            events: self.events@,
            done: self.done,
        }
    }
}

impl MonthFetch {
    /// The collection's own consistency: a real month and its prefix.
    pub closed spec fn wf(&self) -> bool {
        &&& 1 <= self.month <= 12
        &&& self.prefix@ == month_prefix(self.year as int, self.month as nat)
    }

    /// The week to ask the feed for next, with its year, or `None` once the
    /// collection is done.
    pub fn next_request(&self) -> (r: Option<(i32, u32)>)
        requires
            self.wf(),
        ensures
            self@.done ==> r is None,
            !self@.done ==> r == Some((self@.year as i32, self@.week as u32)),
    {
        if self.done {
            None
        } else {
            Some((self.year, self.week))
        }
    }

    /// Whether a week that reaches the end of the month has come.
    pub fn is_done(&self) -> (r: bool)
        ensures
            r == self@.done,
    {
        self.done
    }

    /// The events kept so far.
    pub fn events(&self) -> (r: &Vec<Event>)
        ensures
            r@ == self@.events,
    {
        &self.events
    }

    /// Hands the collection the feed's answer for the week it asked for.
    /// On an error the collection is left as it was.
    pub fn receive(&mut self, week: &Week) -> (r: Result<(), AnitaError>)
        requires
            old(self).wf(),
            !old(self)@.done,
        ensures
            final(self).wf(),
            match spec_receive(old(self)@, *week) {
                Ok(s) => r is Ok && final(self)@ == s,
                Err(e) => r == Err::<(), AnitaError>(e) && final(self)@ == old(self)@,
            },
    {
        let end = match parse_iso_date(week.end_date.as_str()) {
            Some(d) => d,
            None => return Err(AnitaError::MalformedPayload),
        };
        let reached = end.is_on_or_after(&self.boundary);
        if !reached && self.week == u32::MAX {
            return Err(AnitaError::DateRange);
        }
        let kept = select(&self.employee, &self.prefix, week);
        let ghost s0 = self@;
        let mut i: usize = 0;
        while i < kept.len()
            invariant
                i <= kept@.len(),
                self@ == (FetchView { events: s0.events + kept@.take(i as int), ..s0 }),
                self.wf(),
            decreases kept@.len() - i,
        {
            self.events.push(kept[i].duplicate());
            proof {
                assert(kept@.take(i + 1) == kept@.take(i as int).push(kept@[i as int]));
            }
            i = i + 1;
        }
        proof {
            assert(kept@.take(i as int) == kept@);
        }
        if reached {
            self.done = true;
        } else {
            self.week = self.week + 1;
        }
        Ok(())
    }

    /// The events kept, once the collection is over.
    pub fn into_events(self) -> (r: Vec<Event>)
        ensures
            r@ == self@.events,
    {
        self.events
    }
}

proof fn lemma_kept_events_are_kept(evs: Seq<Event>, employee: Seq<char>, prefix: Seq<char>)
    ensures
        forall|i: int|
            0 <= i < kept_events(evs, employee, prefix).len() ==> is_kept(
                #[trigger] kept_events(evs, employee, prefix)[i],
                employee,
                prefix,
            ),
    decreases evs.len(),
{
    if evs.len() > 0 {
        let rest = kept_events(evs.drop_last(), employee, prefix);
        lemma_kept_events_are_kept(evs.drop_last(), employee, prefix);
        if is_kept(evs.last(), employee, prefix) {
            assert forall|i: int| 0 <= i < rest.len() + 1 implies is_kept(
                #[trigger] rest.push(evs.last())[i],
                employee,
                prefix,
            ) by {
                if i < rest.len() {
                    assert(rest.push(evs.last())[i] == rest[i]);
                }
            }
        }
    }
}

proof fn lemma_replay_keeps_only_matching(s: FetchView, ws: Seq<Week>)
    requires
        forall|i: int|
            0 <= i < s.events.len() ==> is_kept(
                #[trigger] s.events[i],
                s.employee,
                month_prefix(s.year, s.month as nat),
            ),
    ensures
        replay(s, ws) matches Ok((evs, n)) ==> forall|i: int|
            0 <= i < evs.len() ==> is_kept(
                #[trigger] evs[i],
                s.employee,
                month_prefix(s.year, s.month as nat),
            ),
    decreases ws.len(),
{
    if ws.len() > 0 {
        let prefix = month_prefix(s.year, s.month as nat);
        let kept = kept_events(ws[0].events(), s.employee, prefix);
        lemma_kept_events_are_kept(ws[0].events(), s.employee, prefix);
        let all = s.events + kept;
        assert forall|i: int| 0 <= i < all.len() implies is_kept(
            #[trigger] all[i],
            s.employee,
            prefix,
        ) by {
            if i >= s.events.len() {
                assert(all[i] == kept[i - s.events.len()]);
            }
        }
        if let Ok(s2) = spec_receive(s, ws[0]) {
            if !s2.done {
                lemma_replay_keeps_only_matching(s2, ws.drop_first());
            }
        }
    }
}

/// Every collected event has a date that starts with the month's
/// `YYYY-MM` prefix, whoever it belongs to.
pub proof fn lemma_collected_dates_in_month(
    employee: Seq<char>,
    year: int,
    month: int,
    ws: Seq<Week>,
)
    ensures
        spec_collect(employee, year, month, ws) matches Ok((evs, n)) ==> forall|i: int|
            0 <= i < evs.len() ==> month_prefix(year, month as nat).is_prefix_of(
                #[trigger] evs[i].date@,
            ),
{
    if 1 <= month <= 12 {
        if let Some(b) = spec_boundary(year, month) {
            lemma_replay_keeps_only_matching(initial_fetch(employee, year, month, b), ws);
        }
    }
}

/// Every collected event belongs to the employee, whatever its date.
pub proof fn lemma_collected_person_is_employee(
    employee: Seq<char>,
    year: int,
    month: int,
    ws: Seq<Week>,
)
    ensures
        spec_collect(employee, year, month, ws) matches Ok((evs, n)) ==> forall|i: int|
            0 <= i < evs.len() ==> (#[trigger] evs[i]).person@ == employee,
{
    if 1 <= month <= 12 {
        if let Some(b) = spec_boundary(year, month) {
            lemma_replay_keeps_only_matching(initial_fetch(employee, year, month, b), ws);
        }
    }
}

/// The end date of week `w`, read as chrono reads it.
pub open spec fn end_of(w: Week) -> Date {
    date_from_fields(iso_date_of(w.end_date@)->0)
}

proof fn lemma_replay_stop(s: FetchView, ws: Seq<Week>)
    requires
        !s.done,
    ensures
        replay(s, ws) matches Ok((evs, n)) ==> {
            &&& 1 <= n <= ws.len()
            &&& forall|j: int| 0 <= j < n ==> (#[trigger] iso_date_of(ws[j].end_date@)) is Some
            &&& s.boundary.spec_le(end_of(ws[n - 1]))
            &&& forall|j: int| 0 <= j < n - 1 ==> !s.boundary.spec_le(#[trigger] end_of(ws[j]))
        },
    decreases ws.len(),
{
    if ws.len() > 0 {
        if let Ok(s2) = spec_receive(s, ws[0]) {
            let t = iso_date_of(ws[0].end_date@)->0;
            assert(iso_date_of(ws[0].end_date@) is Some);
            assert(end_of(ws[0]) == date_from_fields(t));
            assert(s2.boundary == s.boundary);
            assert(s2.done == s.boundary.spec_le(end_of(ws[0])));
            if !s2.done {
                let rest = ws.drop_first();
                lemma_replay_stop(s2, rest);
                if let Ok((evs, n)) = replay(s2, rest) {
                    assert forall|j: int| 0 <= j < n + 1 implies (#[trigger] iso_date_of(
                        ws[j].end_date@,
                    )) is Some by {
                        if j > 0 {
                            assert(ws[j] == rest[j - 1]);
                        }
                    }
                    assert(ws[n as int] == rest[n - 1]);
                    assert forall|j: int| 0 <= j < n implies !s.boundary.spec_le(
                        #[trigger] end_of(ws[j]),
                    ) by {
                        if j > 0 {
                            assert(ws[j] == rest[j - 1]);
                        }
                    }
                }
            }
        }
    }
}

/// A collection that succeeds after `n` weeks stopped at the first week
/// whose end date reaches the first day after the month: week `n` ends on
/// or after that day and every earlier week ends before it.
pub proof fn lemma_collect_stops_at_boundary(
    employee: Seq<char>,
    year: int,
    month: int,
    ws: Seq<Week>,
)
    ensures
        spec_collect(employee, year, month, ws) matches Ok((evs, n)) ==> {
            &&& spec_boundary(year, month) is Some
            &&& 1 <= n <= ws.len()
            &&& spec_boundary(year, month)->0.spec_le(end_of(ws[n - 1]))
            &&& forall|j: int|
                0 <= j < n - 1 ==> !spec_boundary(year, month)->0.spec_le(#[trigger] end_of(ws[j]))
        },
{
    if 1 <= month <= 12 {
        if let Some(b) = spec_boundary(year, month) {
            lemma_replay_stop(initial_fetch(employee, year, month, b), ws);
        }
    }
}

proof fn lemma_replay_count(s: FetchView, ws: Seq<Week>, k: int)
    requires
        !s.done,
        0 <= k < ws.len(),
        s.week + k < u32::MAX,
        forall|i: int| 0 <= i <= k ==> (#[trigger] iso_date_of(ws[i].end_date@)) is Some,
        s.boundary.spec_le(end_of(ws[k])),
        forall|j: int| 0 <= j < k ==> !s.boundary.spec_le(#[trigger] end_of(ws[j])),
    ensures
        replay(s, ws) matches Ok((evs, n)) && n == k + 1,
    decreases k,
{
    assert(iso_date_of(ws[0].end_date@) is Some);
    if k > 0 {
        assert(!s.boundary.spec_le(end_of(ws[0])));
        let s2 = spec_receive(s, ws[0])->Ok_0;
        let rest = ws.drop_first();
        assert forall|i: int| 0 <= i <= k - 1 implies (#[trigger] iso_date_of(
            rest[i].end_date@,
        )) is Some by {
            assert(rest[i] == ws[i + 1]);
        }
        assert forall|j: int| 0 <= j < k - 1 implies !s2.boundary.spec_le(
            #[trigger] end_of(rest[j]),
        ) by {
            assert(rest[j] == ws[j + 1]);
        }
        assert(rest[k - 1] == ws[k]);
        lemma_replay_count(s2, rest, k - 1);
    }
}

/// Over weeks whose end dates read as dates and strictly increase,
/// collection uses exactly `k + 1` weeks, where `k` is the first position
/// whose week ends on or after the first day after the month. Left out are
/// the inputs where the week index would pass `u32::MAX` first.
pub proof fn lemma_fetch_count(employee: Seq<char>, year: int, month: int, ws: Seq<Week>, k: int)
    requires
        1 <= month <= 12,
        spec_boundary(year, month) is Some,
        forall|i: int| 0 <= i < ws.len() ==> (#[trigger] iso_date_of(ws[i].end_date@)) is Some,
        forall|i: int, j: int|
            0 <= i < j < ws.len() ==> !(#[trigger] end_of(ws[j])).spec_le(#[trigger] end_of(ws[i])),
        0 <= k < ws.len(),
        spec_boundary(year, month)->0.spec_le(end_of(ws[k])),
        forall|j: int| 0 <= j < k ==> !spec_boundary(year, month)->0.spec_le(#[trigger] end_of(ws[j])),
        spec_start_week(month) + k < u32::MAX,
    ensures
        spec_collect(employee, year, month, ws) matches Ok((evs, n)) && n == k + 1,
{
    let b = spec_boundary(year, month)->0;
    lemma_replay_count(initial_fetch(employee, year, month, b), ws, k);
}

/// The events of `week` that belong to `employee` and whose date starts
/// with `prefix`, in the week's order.
fn select(employee: &String, prefix: &String, week: &Week) -> (r: Vec<Event>)
    ensures
        r@ == kept_events(week.events(), employee@, prefix@),
{
    let all = week.all_events();
    let mut out: Vec<Event> = Vec::new();
    let mut i: usize = 0;
    while i < all.len()
        invariant
            i <= all@.len(),
            all@ == week.events(),
            out@ == kept_events(all@.take(i as int), employee@, prefix@),
        decreases all@.len() - i,
    {
        let e = &all[i];
        proof {
            assert(all@.take(i + 1).drop_last() == all@.take(i as int));
        }
        if has_prefix(e.date.as_str(), prefix.as_str()) && e.person == *employee {
            out.push(e.duplicate());
        }
        i = i + 1;
    }
    proof {
        assert(all@.take(i as int) == all@);
    }
    out
}

impl Anita {
    /// The employee whose shifts are collected.
    pub closed spec fn employee(&self) -> Seq<char> {
        self.employee@
    }

    pub fn new(employee: String) -> (r: Anita)
        ensures
            r.employee() == employee@,
    {
        Anita { employee }
    }

    /// The events of `week` that belong to the employee and fall in `month`
    /// of `year`, in the week's order.
    pub fn select_events(&self, week: &Week, year: i32, month: u32) -> (r: Vec<Event>)
        ensures
            r@ == kept_events(week.events(), self.employee(), month_prefix(year as int, month as nat)),
    {
        let prefix = month_prefix_text(year, month);
        select(&self.employee, &prefix, week)
    }

    /// Starts collecting `month` of `year`: fails on a month outside 1 to 12
    /// and where the first day after the month is out of chrono's range.
    pub fn start_month(&self, month: u32, year: i32) -> (r: Result<MonthFetch, AnitaError>)
        ensures
            !(1 <= month <= 12) ==> r == Err::<MonthFetch, AnitaError>(AnitaError::InvalidMonth),
            1 <= month <= 12 ==> match spec_boundary(year as int, month as int) {
                None => r == Err::<MonthFetch, AnitaError>(AnitaError::DateRange),
                Some(b) => r matches Ok(f) && f.wf() && f@ == initial_fetch(
                    self.employee(),
                    year as int,
                    month as int,
                    b,
                ),
            },
    {
        let boundary = match first_day_out_of_scope(year, month) {
            Ok(b) => b,
            Err(e) => return Err(e),
        };
        let r = MonthFetch {
            employee: self.employee.clone(),
            year,
            month,
            prefix: month_prefix_text(year, month),
            boundary,
            week: start_week(month),
            events: Vec::new(),
            done: false,
        };
        proof {
            assert(r@.events == Seq::<Event>::empty());
        }
        Ok(r)
    }

    /// Collects `month` of `year` from `payloads`, the feed's answers for
    /// the month's weeks in order from its first week index: the events kept
    /// and the number of payloads used. Fails as `start_month` and `receive`
    /// do, and with `IncompleteMonth` when no payload reaches the end of the
    /// month.
    pub fn collect_month(&self, month: u32, year: i32, payloads: &Vec<Week>) -> (r: Result<
        (Vec<Event>, usize),
        AnitaError,
    >)
        ensures
            collected(r) == spec_collect(self.employee(), year as int, month as int, payloads@),
    {
        let mut f = match self.start_month(month, year) {
            Ok(f) => f,
            Err(e) => return Err(e),
        };
        let ghost ws = payloads@;
        proof {
            assert(ws.skip(0) == ws);
        }
        let mut i: usize = 0;
        while i < payloads.len()
            invariant
                ws == payloads@,
                i <= ws.len(),
                f.wf(),
                !f@.done,
                spec_collect(self.employee(), year as int, month as int, ws) == count_more(
                    replay(f@, ws.skip(i as int)),
                    i as nat,
                ),
            decreases ws.len() - i,
        {
            proof {
                assert(ws.skip(i as int)[0] == ws[i as int]);
                assert(ws.skip(i as int).drop_first() == ws.skip(i + 1));
            }
            match f.receive(&payloads[i]) {
                Ok(()) => {},
                Err(e) => return Err(e),
            }
            if f.is_done() {
                return Ok((f.into_events(), i + 1));
            }
            i = i + 1;
        }
        Err(AnitaError::IncompleteMonth)
    }
}

/// The form that asks for a month's invoice.
#[derive(Debug, Clone)]
pub struct AnitaForm {
    pub maand: Month,
}

/// A month written as `YYYY-MM`.
#[derive(Debug, Clone)]
pub struct Month(pub String);

/// The year and month that `s` writes as `YYYY-MM`: decimal digits around
/// the first `-`, each fitting its type.
pub open spec fn spec_year_month(s: Seq<char>) -> Option<(i32, u32)> {
    match spec_split_once(s, '-') {
        None => None,
        Some((a, b)) => match (spec_parse_digits(a), spec_parse_digits(b)) {
            (Some(y), Some(m)) => if y <= i32::MAX && m <= u32::MAX {
                Some((y as i32, m as u32))
            } else {
                None
            },
            _ => None,
        },
    }
}

impl Month {
    /// A month notation: a text with a `-` in it.
    pub fn parse(s: String) -> (r: Result<Month, AnitaError>)
        ensures
            spec_split_once(s@, '-') is Some ==> (r matches Ok(m) && m.0@ == s@),
            spec_split_once(s@, '-') is None ==> r == Err::<Month, AnitaError>(
                AnitaError::InvalidMonthNotation,
            ),
    {
        match split_once(s.as_str(), '-') {
            Some(_) => Ok(Month(s)),
            None => Err(AnitaError::InvalidMonthNotation),
        }
    }

    /// The year and the month number that the notation writes.
    pub fn year_month(&self) -> (r: Result<(i32, u32), AnitaError>)
        ensures
            match spec_year_month(self.0@) {
                Some(ym) => r == Ok::<(i32, u32), AnitaError>(ym),
                None => r == Err::<(i32, u32), AnitaError>(AnitaError::InvalidMonthNotation),
            },
    {
        let (a, b) = match split_once(self.0.as_str(), '-') {
            Some(parts) => parts,
            None => return Err(AnitaError::InvalidMonthNotation),
        };
        match (parse_digits(a.as_str()), parse_digits(b.as_str())) {
            (Some(y), Some(m)) => {
                if y <= i32::MAX as u64 && m <= u32::MAX as u64 {
                    Ok((y as i32, m as u32))
                } else {
                    Err(AnitaError::InvalidMonthNotation)
                }
            },
            _ => Err(AnitaError::InvalidMonthNotation),
        }
    }
}

} // verus!

//! Work items from shifts, and invoices from work items.
//!
//! Money is counted in whole cents and rates in cents per hour.
use vstd::prelude::*;

use crate::anita::{spec_collect, Anita, AnitaError};
use crate::text::{parse_digits, push_char, push_str, spec_parse_digits, spec_split_once, split_once};
use crate::event::{Event, Week};

verus! {

/// chrono's error for a text that does not parse as a date and time.
#[verifier::external_type_specification]
#[verifier::external_body]
pub struct ExParseError(chrono::format::ParseError);

/// The share of the subtotal that is added as tax (BTW), in percent.
pub const BTW_PERCENT: u64 = 21;

/// The UTC offset at which the feed's local times are read. It is the same
/// on every date, so times in summer are read an hour off.
pub const ASSUMED_OFFSET: &'static str = "+01:00";

/// A local time as RFC 3339 wants it: `YYYY-MM-DDTHH:MM` gets `:00`
/// seconds, any other text stays as it is.
pub open spec fn local_time(t: Seq<char>) -> Seq<char> {
    if t.len() == 16 {
        t + seq![':', '0', '0']
    } else {
        t
    }
}

/// The characters of `ASSUMED_OFFSET`.
pub open spec fn assumed_offset() -> Seq<char> {
    seq!['+', '0', '1', ':', '0', '0']
}

/// A moment in time: seconds since the Unix epoch and the nanoseconds past
/// that second (a leap second counts past one billion).
#[derive(Debug, Clone, Copy, PartialEq, Eq, Structural)]
pub struct Instant {
    pub seconds: i64,
    pub nanos: u32,
}

/// The seconds and nanoseconds of a parsed instant, if there is one.
pub open spec fn instant_fields(r: Result<Instant, chrono::format::ParseError>) -> Option<(int, int)> {
    match r {
        Ok(i) => Some((i.seconds as int, i.nanos as int)),
        Err(_) => None,
    }
}

/// What chrono reads as an RFC 3339 date and time from a text: the seconds
/// since the Unix epoch and the nanoseconds past them.
pub uninterp spec fn rfc3339_instant_of(s: Seq<char>) -> Option<(int, int)>;

/// Relies on chrono's `DateTime::parse_from_rfc3339`, read out through
/// `timestamp` and `timestamp_subsec_nanos`: the outcome depends on the text
/// alone, and the nanoseconds stay under two billion.
#[verifier::external_body]
fn parse_rfc3339(s: &str) -> (r: Result<Instant, chrono::format::ParseError>)
    ensures
        instant_fields(r) == rfc3339_instant_of(s@),
        r matches Ok(i) ==> i.nanos < 2_000_000_000,
{
    match chrono::DateTime::parse_from_rfc3339(s) {
        Ok(t) => Ok(Instant { seconds: t.timestamp(), nanos: t.timestamp_subsec_nanos() }),
        Err(e) => Err(e),
    }
}

/// Relies on chrono's `Utc::now`, read out through `timestamp`: the seconds
/// since the Unix epoch, which are never negative.
#[verifier::external_body]
fn now_seconds() -> (r: i64)
    ensures
        r >= 0,
{
    chrono::Utc::now().timestamp()
}

/// Why a work item or an invoice could not be made.
#[derive(Debug)]
pub enum FactuurErrorKind {
    /// A start or end time did not parse.
    ParseDate(chrono::format::ParseError),
    /// A shift that does not last a whole minute.
    NonPositiveDuration,
    /// An amount that does not fit in 64 bits of cents.
    AmountOutOfRange,
    /// There is nothing to bill.
    NoBillableWork,
    /// The document renderer failed.
    PandocCommand(String),
    /// A file for the document renderer could not be written.
    ReadFile(String),
}

#[derive(Debug)]
pub struct FactuurError {
    pub kind: FactuurErrorKind,
}

/// Who an invoice is addressed to.
#[derive(Debug, Clone, PartialEq, Eq)]
pub struct Client {
    pub name: String,
    pub address: String,
    pub zip: String,
}

/// One billable line: what was done and what it costs, in cents.
#[derive(Debug, Clone, PartialEq, Eq)]
pub struct WorkItem {
    pub desc: String,
    pub cents: u64,
}

/// The line text of a shift: `{event_type} {date} ({start_to_end})`.
pub open spec fn description(e: Event) -> Seq<char> {
    e.event_type@ + seq![' '] + e.date@ + seq![' ', '('] + e.start_to_end@ + seq![')']
}

/// The nanoseconds from `a` to `b`.
pub open spec fn elapsed_nanos(a: Instant, b: Instant) -> int {
    (b.seconds - a.seconds) * 1_000_000_000 + (b.nanos - a.nanos)
}

/// The whole minutes from `a` to `b`, rounded toward zero.
pub open spec fn whole_minutes(a: Instant, b: Instant) -> int {
    let n = elapsed_nanos(a, b);
    if n >= 0 {
        n / 60_000_000_000
    } else {
        -((-n) / 60_000_000_000)
    }
}

/// `minutes` at `rate` cents per hour, rounded to the nearest cent, halves up.
pub open spec fn amount_cents(minutes: int, rate: int) -> int {
    (minutes * rate + 30) / 60
}

/// The line of a shift of `e` from `start` to `end` at `rate` cents per
/// hour: its text and amount, or why there is none.
pub open spec fn spec_item(e: Event, start: Instant, end: Instant, rate: int) -> Result<
    (Seq<char>, int),
    FactuurErrorKind,
> {
    let minutes = whole_minutes(start, end);
    if minutes <= 0 {
        Err(FactuurErrorKind::NonPositiveDuration)
    } else if amount_cents(minutes, rate) > u64::MAX {
        Err(FactuurErrorKind::AmountOutOfRange)
    } else {
        Ok((description(e), amount_cents(minutes, rate)))
    }
}

/// The text and amount of a work item, or the kind of its error.
pub open spec fn item_view(r: Result<WorkItem, FactuurError>) -> Result<(Seq<char>, int), FactuurErrorKind> {
    match r {
        Ok(w) => Ok((w.desc@, w.cents as int)),
        Err(e) => Err(e.kind),
    }
}

/// The instant with the given fields.
pub open spec fn instant_from_fields(t: (int, int)) -> Instant {
    Instant { seconds: t.0 as i64, nanos: t.1 as u32 }
}

/// The line of shift `e` at `rate`, with its start and end times read at
/// the assumed offset; `None` where a time does not parse or `spec_item`
/// gives none.
pub open spec fn spec_event_item(e: Event, rate: int) -> Option<(Seq<char>, int)> {
    match (
        rfc3339_instant_of(local_time(e.start@) + assumed_offset()),
        rfc3339_instant_of(local_time(e.end@) + assumed_offset()),
    ) {
        (Some(a), Some(b)) => match spec_item(e, instant_from_fields(a), instant_from_fields(b), rate) {
            Ok(line) => Some(line),
            Err(_) => None,
        },
        _ => None,
    }
}

/// The lines of the shifts `evs` at `rate`, in order, leaving out those
/// that give none.
pub open spec fn spec_items(evs: Seq<Event>, rate: int) -> Seq<(Seq<char>, int)>
    decreases evs.len(),
{
    if evs.len() == 0 {
        Seq::empty()
    } else {
        let rest = spec_items(evs.drop_last(), rate);
        match spec_event_item(evs.last(), rate) {
            Some(line) => rest.push(line),
            None => rest,
        }
    }
}

/// The texts and amounts of work items.
pub open spec fn lines(items: Seq<WorkItem>) -> Seq<(Seq<char>, int)> {
    items.map_values(|w: WorkItem| (w.desc@, w.cents as int))
}

/// The sum of the amounts of `lines`.
pub open spec fn sum_cents(lines: Seq<(Seq<char>, int)>) -> int
    decreases lines.len(),
{
    if lines.len() == 0 {
        0
    } else {
        sum_cents(lines.drop_last()) + lines.last().1
    }
}

/// The tax on `subtotal` cents: 21 percent, rounded to the nearest cent,
/// halves up.
pub open spec fn btw_of(subtotal: int) -> int {
    (subtotal * BTW_PERCENT + 50) / 100
}

/// The local time `t`, with seconds where it has none, followed by the
/// assumed offset.
fn with_assumed_offset(t: &String) -> (r: String)
    ensures
        r@ == local_time(t@) + assumed_offset(),
{
    let mut s = t.clone();
    if t.as_str().unicode_len() == 16 {
        push_char(&mut s, ':');
        push_char(&mut s, '0');
        push_char(&mut s, '0');
        proof {
            assert(s@ =~= local_time(t@));
        }
    }
    proof {
        reveal_strlit("+01:00");
    }
    push_str(&mut s, ASSUMED_OFFSET);
    s
}

impl WorkItem {
    /// The line of a shift of `e` from `start` to `end` at `rate` cents per
    /// hour: its length in whole minutes (rounded toward zero) times the
    /// rate, rounded to the nearest cent. A shift that does not last a
    /// minute gives no line.
    pub fn from_instants(e: &Event, start: Instant, end: Instant, rate: u64) -> (r: Result<
        WorkItem,
        FactuurError,
    >)
        ensures
            item_view(r) == spec_item(*e, start, end, rate as int),
    {
        let secs: i128 = end.seconds as i128 - start.seconds as i128;
        let nanos: i128 = end.nanos as i128 - start.nanos as i128;
        let n: i128 = secs * 1_000_000_000i128 + nanos;
        let minutes: i128 = if n >= 0 {
            n / 60_000_000_000i128
        } else {
            -((-n) / 60_000_000_000i128)
        };
        if minutes <= 0 {
            return Err(FactuurError { kind: FactuurErrorKind::NonPositiveDuration });
        }
        proof {
            assert(minutes <= 400_000_000_000_000_000) by (nonlinear_arith)
                requires
                    minutes == n / 60_000_000_000i128,
                    n <= 20_000_000_000_000_000_000_000_000_000,
                    n >= 0,
            ;
            assert(minutes * (rate as int) <= 400_000_000_000_000_000 * 18_446_744_073_709_551_615)
                by (nonlinear_arith)
                requires
                    0 < minutes <= 400_000_000_000_000_000,
                    0 <= rate <= 18_446_744_073_709_551_615,
            ;
        }
        let amount: i128 = (minutes * rate as i128 + 30) / 60;
        if amount > u64::MAX as i128 {
            return Err(FactuurError { kind: FactuurErrorKind::AmountOutOfRange });
        }
        let mut desc = e.event_type.clone();
        push_char(&mut desc, ' ');
        push_str(&mut desc, e.date.as_str());
        push_char(&mut desc, ' ');
        push_char(&mut desc, '(');
        push_str(&mut desc, e.start_to_end.as_str());
        push_char(&mut desc, ')');
        proof {
            assert(desc@ =~= description(*e));
        }
        Ok(WorkItem { desc, cents: amount as u64 })
    }

    /// The line of shift `e` at `rate` cents per hour, its start and end
    /// read as RFC 3339 times at the assumed offset (a time without seconds
    /// is read at second zero).
    pub fn try_from_event(e: &Event, rate: u64) -> (r: Result<WorkItem, FactuurError>)
        ensures
            match (
                rfc3339_instant_of(local_time(e.start@) + assumed_offset()),
                rfc3339_instant_of(local_time(e.end@) + assumed_offset()),
            ) {
                (Some(a), Some(b)) => item_view(r) == spec_item(
                    *e,
                    instant_from_fields(a),
                    instant_from_fields(b),
                    rate as int,
                ),
                _ => r matches Err(FactuurError { kind: FactuurErrorKind::ParseDate(_) }),
            },
    {
        let start = match parse_rfc3339(with_assumed_offset(&e.start).as_str()) {
            Ok(t) => t,
            Err(err) => return Err(FactuurError { kind: FactuurErrorKind::ParseDate(err) }),
        };
        let end = match parse_rfc3339(with_assumed_offset(&e.end).as_str()) {
            Ok(t) => t,
            Err(err) => return Err(FactuurError { kind: FactuurErrorKind::ParseDate(err) }),
        };
        WorkItem::from_instants(e, start, end, rate)
    }
}

impl WorkItem {
    /// The work items of `events` at `rate` cents per hour, in order;
    /// a shift whose times do not parse or that gives no line is left out.
    pub fn from_events(events: &Vec<Event>, rate: u64) -> (r: Vec<WorkItem>)
        ensures
            lines(r@) == spec_items(events@, rate as int),
    {
        let mut out: Vec<WorkItem> = Vec::new();
        let mut i: usize = 0;
        while i < events.len()
            invariant
                i <= events@.len(),
                lines(out@) == spec_items(events@.take(i as int), rate as int),
            decreases events@.len() - i,
        {
            let ghost before = out@;
            proof {
                assert(events@.take(i + 1).drop_last() == events@.take(i as int));
                assert(events@.take(i + 1).last() == events@[i as int]);
            }
            match WorkItem::try_from_event(&events[i], rate) {
                Ok(w) => {
                    out.push(w);
                    proof {
                        assert(lines(out@) =~= lines(before).push((w.desc@, w.cents as int)));
                    }
                },
                Err(_) => {},
            }
            i = i + 1;
        }
        proof {
            assert(events@.take(i as int) == events@);
        }
        out
    }
}

/// The number that `s` writes in decimal digits, where no digits at all
/// write zero.
pub open spec fn spec_digits_or_empty(s: Seq<char>) -> Option<u64> {
    if s.len() == 0 {
        Some(0)
    } else {
        spec_parse_digits(s)
    }
}

fn digits_or_empty(s: &str) -> (r: Option<u64>)
    ensures
        r == spec_digits_or_empty(s@),
{
    if s.unicode_len() == 0 {
        Some(0)
    } else {
        parse_digits(s)
    }
}

/// The cents that a price in euros stands for, if it fits in 64 bits: the
/// euros in digits, then optionally a `.` and at most two digits of cents,
/// where either side of the `.` (not both) may be empty (`5`, `5.`, `.5`,
/// `5.25`). Exponents and more than two decimals are not amounts in cents.
pub open spec fn spec_price_cents(s: Seq<char>) -> Option<u64> {
    match spec_split_once(s, '.') {
        None => match spec_parse_digits(s) {
            Some(e) => if e * 100 <= u64::MAX {
                Some((e * 100) as u64)
            } else {
                None
            },
            None => None,
        },
        Some((a, b)) => if b.len() <= 2 && a.len() + b.len() > 0 {
            match (spec_digits_or_empty(a), spec_digits_or_empty(b)) {
                (Some(e), Some(c)) => {
                    let cents = e * 100 + if b.len() == 1 {
                        c * 10
                    } else {
                        c as int
                    };
                    if cents <= u64::MAX {
                        Some(cents as u64)
                    } else {
                        None
                    }
                },
                _ => None,
            }
        } else {
            None
        },
    }
}

/// Reads a price in euros, with at most two decimals after a `.`, as cents.
pub fn price_cents(s: &str) -> (r: Option<u64>)
    ensures
        r == spec_price_cents(s@),
{
    match split_once(s, '.') {
        None => match parse_digits(s) {
            Some(e) => if e <= u64::MAX / 100 {
                Some(e * 100)
            } else {
                None
            },
            None => None,
        },
        Some((a, b)) => {
            let m = a.as_str().unicode_len();
            let n = b.as_str().unicode_len();
            if n > 2 || (m == 0 && n == 0) {
                return None;
            }
            match (digits_or_empty(a.as_str()), digits_or_empty(b.as_str())) {
                (Some(e), Some(c)) => {
                    proof {
                        if n > 0 {
                            crate::text::lemma_two_digits_below_hundred(b@);
                        }
                    }
                    let frac: u64 = if n == 1 {
                        c * 10
                    } else {
                        c
                    };
                    if e > (u64::MAX - frac) / 100 {
                        None
                    } else {
                        Some(e * 100 + frac)
                    }
                },
                _ => None,
            }
        },
    }
}

/// The line that a task and its price give: none where either is empty or
/// the price does not read as cents.
pub open spec fn spec_form_line(task: Seq<char>, price: Seq<char>) -> Option<(Seq<char>, int)> {
    if task.len() == 0 || price.len() == 0 {
        None
    } else {
        match spec_price_cents(price) {
            Some(c) => Some((task, c as int)),
            None => None,
        }
    }
}

/// The lines of the first `n` pairs of tasks and prices, in order.
pub open spec fn form_lines(tasks: Seq<String>, prices: Seq<String>, n: int) -> Seq<(Seq<char>, int)>
    decreases n,
{
    if n <= 0 {
        Seq::empty()
    } else {
        let rest = form_lines(tasks, prices, n - 1);
        match spec_form_line(tasks[n - 1]@, prices[n - 1]@) {
            Some(line) => rest.push(line),
            None => rest,
        }
    }
}

/// The form that asks for an invoice: its number, the client, and tasks
/// with their prices in euros, pair by pair.
#[derive(Debug, Clone)]
pub struct FactuurForm {
    pub factuur_nummer: usize,
    pub client_name: String,
    pub client_address: String,
    pub client_zip: String,
    pub tasks: Vec<String>,
    pub prices: Vec<String>,
}

/// The number of task and price pairs of a form.
pub open spec fn pair_count(form: FactuurForm) -> int {
    if form.tasks@.len() <= form.prices@.len() {
        form.tasks@.len() as int
    } else {
        form.prices@.len() as int
    }
}

impl FactuurForm {
    /// The work items of the form's pairs, in order, leaving out those with
    /// an empty task or price and those whose price does not read as cents.
    pub fn work_items(&self) -> (r: Vec<WorkItem>)
        ensures
            lines(r@) == form_lines(self.tasks@, self.prices@, pair_count(*self)),
    {
        let n = if self.tasks.len() <= self.prices.len() {
            self.tasks.len()
        } else {
            self.prices.len()
        };
        let mut out: Vec<WorkItem> = Vec::new();
        let mut i: usize = 0;
        while i < n
            invariant
                n == pair_count(*self),
                n <= self.tasks@.len(),
                n <= self.prices@.len(),
                i <= n,
                lines(out@) == form_lines(self.tasks@, self.prices@, i as int),
            decreases n - i,
        {
            let ghost before = out@;
            let task = &self.tasks[i];
            let price = &self.prices[i];
            if task.as_str().unicode_len() > 0 && price.as_str().unicode_len() > 0 {
                match price_cents(price.as_str()) {
                    Some(c) => {
                        out.push(WorkItem { desc: task.clone(), cents: c });
                        proof {
                            assert(lines(out@) =~= lines(before).push((task@, c as int)));
                        }
                    },
                    None => {},
                }
            }
            i = i + 1;
        }
        out
    }
}

/// The query of the invoice page: the client whose details to fill in.
#[derive(Debug, Clone)]
pub struct FactuurParams {
    pub client: Option<String>,
}

impl FactuurParams {
    /// The query with `client`, where an empty name counts as none.
    pub fn new(client: Option<String>) -> (r: FactuurParams)
        ensures
            match client {
                Some(c) => if c@.len() == 0 {
                    r.client is None
                } else {
                    r.client == Some(c)
                },
                None => r.client is None,
            },
    {
        match client {
            Some(c) => {
                if c.as_str().unicode_len() == 0 {
                    FactuurParams { client: None }
                } else {
                    FactuurParams { client: Some(c) }
                }
            },
            None => FactuurParams { client: None },
        }
    }
}

/// The query of an action on one invoice: its number.
#[derive(Debug, Clone, Copy, PartialEq, Eq, Structural)]
pub struct FactuurActionParams {
    pub factuur: usize,
}

/// The lines and totals of an invoice, in cents.
pub struct InvoiceTotals {
    pub lines: Seq<(Seq<char>, int)>,
    pub subtotal: int,
    pub btw: int,
    pub total: int,
}

/// The totals of an invoice with `lines`: the subtotal is their sum, the
/// tax is `btw_of` the subtotal and the total is the two added. No lines is
/// nothing to bill; a total past `u64::MAX` is out of range.
pub open spec fn spec_totals(lines: Seq<(Seq<char>, int)>) -> Result<InvoiceTotals, FactuurError> {
    if lines.len() == 0 {
        Err(FactuurError { kind: FactuurErrorKind::NoBillableWork })
    } else {
        let s = sum_cents(lines);
        if s + btw_of(s) > u64::MAX {
            Err(FactuurError { kind: FactuurErrorKind::AmountOutOfRange })
        } else {
            Ok(InvoiceTotals { lines, subtotal: s, btw: btw_of(s), total: s + btw_of(s) })
        }
    }
}

/// An invoice: its number, client, lines, totals in cents and the moment it
/// was issued, in seconds since the Unix epoch.
#[derive(Debug, Clone)]
pub struct Factuur {
    pub nummer: usize,
    pub client: Client,
    pub work_items: Vec<WorkItem>,
    pub subtotal: u64,
    pub btw: u64,
    pub total: u64,
    pub date: i64,
}

/// The lines and totals of an invoice.
pub open spec fn totals_of(f: Factuur) -> InvoiceTotals {
    InvoiceTotals {
        lines: lines(f.work_items@),
        subtotal: f.subtotal as int,
        btw: f.btw as int,
        total: f.total as int,
    }
}

/// Why synthesizing an invoice from the feed failed.
#[derive(Debug)]
pub enum SynthesisError {
    /// Collecting the month's shifts failed.
    Schedule(AnitaError),
    /// The invoice could not be made from the shifts.
    Invoice(FactuurError),
}

/// The invoice lines and totals for `employee`'s shifts in `month` of
/// `year` at `rate` cents per hour, collected from the weeks `ws`.
pub open spec fn spec_synthesis(employee: Seq<char>, year: int, month: int, rate: int, ws: Seq<Week>) -> Result<
    InvoiceTotals,
    SynthesisError,
> {
    match spec_collect(employee, year, month, ws) {
        Err(e) => Err(SynthesisError::Schedule(e)),
        Ok((evs, n)) => match spec_totals(spec_items(evs, rate)) {
            Ok(t) => Ok(t),
            Err(e) => Err(SynthesisError::Invoice(e)),
        },
    }
}

/// The lines and totals of a synthesized invoice, or its error.
pub open spec fn synthesis_outcome(r: Result<Factuur, SynthesisError>) -> Result<InvoiceTotals, SynthesisError> {
    match r {
        Ok(f) => Ok(totals_of(f)),
        Err(e) => Err(e),
    }
}

proof fn lemma_sum_grows(l: Seq<(Seq<char>, int)>, i: int)
    requires
        0 <= i <= l.len(),
        forall|j: int| 0 <= j < l.len() ==> (#[trigger] l[j]).1 >= 0,
    ensures
        sum_cents(l.take(i)) <= sum_cents(l),
        sum_cents(l) >= 0,
    decreases l.len(),
{
    if l.len() > 0 {
        if i == l.len() {
            assert(l.take(i) == l);
            lemma_sum_grows(l.drop_last(), 0);
        } else {
            assert(l.take(i) == l.drop_last().take(i));
            lemma_sum_grows(l.drop_last(), i);
        }
    } else {
        assert(l.take(i) == l);
    }
}

impl Factuur {
    /// Whether the totals are those of the lines.
    pub open spec fn is_consistent(self) -> bool {
        spec_totals(lines(self.work_items@)) == Ok::<InvoiceTotals, FactuurError>(totals_of(self))
    }

    /// The invoice numbered `nummer` for `client` with `work_items`, issued
    /// at `date`: subtotal, tax and total as `spec_totals` gives them.
    pub fn new(nummer: usize, client: Client, work_items: Vec<WorkItem>, date: i64) -> (r: Result<
        Factuur,
        FactuurError,
    >)
        ensures
            match spec_totals(lines(work_items@)) {
                Ok(t) => r matches Ok(f) && totals_of(f) == t && f.work_items@ == work_items@
                    && f.nummer == nummer && f.client == client && f.date == date
                    && f.is_consistent(),
                Err(e) => r == Err::<Factuur, FactuurError>(e),
            },
    {
        if work_items.len() == 0 {
            return Err(FactuurError { kind: FactuurErrorKind::NoBillableWork });
        }
        let ghost all = lines(work_items@);
        proof {
            assert forall|j: int| 0 <= j < all.len() implies (#[trigger] all[j]).1 >= 0 by {}
        }
        let mut subtotal: u64 = 0;
        let mut i: usize = 0;
        while i < work_items.len()
            invariant
                i <= work_items@.len(),
                all == lines(work_items@),
                forall|j: int| 0 <= j < all.len() ==> (#[trigger] all[j]).1 >= 0,
                subtotal == sum_cents(all.take(i as int)),
            decreases work_items@.len() - i,
        {
            proof {
                assert(all.take(i + 1).drop_last() == all.take(i as int));
                assert(all.take(i + 1).last() == all[i as int]);
                lemma_sum_grows(all, i + 1);
            }
            if subtotal > u64::MAX - work_items[i].cents {
                proof {
                    assert(sum_cents(all) > u64::MAX);
                }
                return Err(FactuurError { kind: FactuurErrorKind::AmountOutOfRange });
            }
            subtotal = subtotal + work_items[i].cents;
            i = i + 1;
        }
        proof {
            assert(all.take(i as int) == all);
        }
        let btw: u64 = subtotal / 100 * 21 + (subtotal % 100 * 21 + 50) / 100;
        proof {
            let s = subtotal as int;
            assert(btw == btw_of(s)) by (nonlinear_arith)
                requires
                    btw == s / 100 * 21 + (s % 100 * 21 + 50) / 100,
                    s >= 0,
                    BTW_PERCENT == 21,
            ;
        }
        if subtotal > u64::MAX - btw {
            return Err(FactuurError { kind: FactuurErrorKind::AmountOutOfRange });
        }
        Ok(Factuur { nummer, client, work_items, subtotal, btw, total: subtotal + btw, date })
    }

    /// As `new`, issued now.
    pub fn issue(nummer: usize, client: Client, work_items: Vec<WorkItem>) -> (r: Result<
        Factuur,
        FactuurError,
    >)
        ensures
            match spec_totals(lines(work_items@)) {
                Ok(t) => r matches Ok(f) && totals_of(f) == t && f.work_items@ == work_items@
                    && f.nummer == nummer && f.client == client && f.date >= 0
                    && f.is_consistent(),
                Err(e) => r == Err::<Factuur, FactuurError>(e),
            },
    {
        let date = now_seconds();
        Factuur::new(nummer, client, work_items, date)
    }

    /// The invoice that a form asks for, issued now.
    pub fn from_form(form: FactuurForm) -> (r: Result<Factuur, FactuurError>)
        ensures
            match spec_totals(form_lines(form.tasks@, form.prices@, pair_count(form))) {
                Ok(t) => r matches Ok(f) && totals_of(f) == t && f.nummer == form.factuur_nummer
                    && f.client == (Client {
                    name: form.client_name,
                    address: form.client_address,
                    zip: form.client_zip,
                }) && f.is_consistent(),
                Err(e) => r == Err::<Factuur, FactuurError>(e),
            },
    {
        let items = form.work_items();
        let client = Client {
            name: form.client_name,
            address: form.client_address,
            zip: form.client_zip,
        };
        Factuur::issue(form.factuur_nummer, client, items)
    }

    /// The invoice numbered `nummer` for `client`, issued at `date`, for
    /// the shifts of `anita`'s employee in `month` of `year` at `rate` cents
    /// per hour, collected from `payloads` as `Anita::collect_month` does.
    pub fn synthesize(
        anita: &Anita,
        month: u32,
        year: i32,
        rate: u64,
        nummer: usize,
        client: Client,
        payloads: &Vec<Week>,
        date: i64,
    ) -> (r: Result<Factuur, SynthesisError>)
        ensures
            synthesis_outcome(r) == spec_synthesis(
                anita.employee(),
                year as int,
                month as int,
                rate as int,
                payloads@,
            ),
            r matches Ok(f) ==> f.nummer == nummer && f.client == client && f.date == date
                && f.is_consistent(),
    {
        let events = match anita.collect_month(month, year, payloads) {
            Ok((events, _)) => events,
            Err(e) => return Err(SynthesisError::Schedule(e)),
        };
        let items = WorkItem::from_events(&events, rate);
        match Factuur::new(nummer, client, items, date) {
            Ok(f) => Ok(f),
            Err(e) => Err(SynthesisError::Invoice(e)),
        }
    }
}

/// Synthesizing twice from the same frozen payloads gives the same work
/// items and the same totals, whenever each invoice was issued.
pub proof fn lemma_synthesis_repeatable(
    anita: Anita,
    month: u32,
    year: i32,
    rate: u64,
    payloads: Seq<Week>,
    first: Result<Factuur, SynthesisError>,
    second: Result<Factuur, SynthesisError>,
)
    requires
        synthesis_outcome(first) == spec_synthesis(anita.employee(), year as int, month as int, rate as int, payloads),
        synthesis_outcome(second) == spec_synthesis(anita.employee(), year as int, month as int, rate as int, payloads),
    ensures
        synthesis_outcome(first) == synthesis_outcome(second),
        first matches Ok(f) ==> second matches Ok(g) && lines(f.work_items@) == lines(g.work_items@)
            && f.subtotal == g.subtotal && f.btw == g.btw && f.total == g.total,
{
}

/// The tax of an invoice is 21 percent of its subtotal rounded to the
/// nearest cent (halves up), and its total is subtotal and tax added, for
/// every invoice that `Factuur::new` makes.
pub proof fn lemma_totals(f: Factuur)
    requires
        f.is_consistent(),
    ensures
        f.btw == btw_of(f.subtotal as int),
        f.subtotal * 21 - 50 < 100 * f.btw <= f.subtotal * 21 + 50,
        f.total == f.subtotal + f.btw,
        f.subtotal == sum_cents(lines(f.work_items@)),
        f.work_items@.len() > 0,
{
    let s = f.subtotal as int;
    assert(s * 21 - 50 < 100 * btw_of(s) <= s * 21 + 50) by (nonlinear_arith)
        requires
            btw_of(s) == (s * 21 + 50) / 100,
    ;
}

} // verus!

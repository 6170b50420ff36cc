//! Invoices by month and by quarter, for the overview and tax pages.
use chrono::Datelike;
use vstd::multiset::Multiset;
use vstd::prelude::*;

use crate::factuur::{Client, Factuur, WorkItem};
use crate::text::{decimal_text, int_text, push_char, push_decimal, push_int, push_str};

verus! {

/// A calendar month of a year.
#[derive(Debug, Clone, Copy, PartialEq, Eq, Structural, Hash)]
pub struct YearMonth {
    pub year: i32,
    pub month: u32,
}

/// A quarter (1 to 4) of a year.
#[derive(Debug, Clone, Copy, PartialEq, Eq, Structural, Hash)]
pub struct Quarter {
    pub year: i32,
    pub quarter: u32,
}

/// The year and month of a UTC moment, if there is one.
pub open spec fn year_month_fields(r: Option<YearMonth>) -> Option<(int, int)> {
    match r {
        Some(ym) => Some((ym.year as int, ym.month as int)),
        None => None,
    }
}

/// The UTC year and month of a Unix timestamp, as chrono gives them.
pub uninterp spec fn utc_month_of(secs: int) -> Option<(int, int)>;

/// Relies on chrono's `DateTime::from_timestamp`, read out through `year`
/// and `month`: the UTC month of a timestamp depends on the timestamp
/// alone, none is given outside chrono's range of dates (which reaches far
/// past a million million seconds either side of 1970), and a month is 1
/// to 12.
#[verifier::external_body]
fn utc_year_month(secs: i64) -> (r: Option<YearMonth>)
    ensures
        year_month_fields(r) == utc_month_of(secs as int),
        r matches Some(ym) ==> 1 <= ym.month <= 12,
        -1_000_000_000_000 <= secs <= 1_000_000_000_000 ==> r is Some,
{
    match chrono::DateTime::from_timestamp(secs, 0) {
        Some(t) => Some(YearMonth { year: t.year(), month: t.month() }),
        None => None,
    }
}

/// The Dutch name of month `m`, or `ooit` ("some time") for no month.
pub open spec fn month_name(m: int) -> Seq<char> {
    if m == 1 {
        "januari"@
    } else if m == 2 {
        "februari"@
    } else if m == 3 {
        "maart"@
    } else if m == 4 {
        "april"@
    } else if m == 5 {
        "mei"@
    } else if m == 6 {
        "juni"@
    } else if m == 7 {
        "juli"@
    } else if m == 8 {
        "augustus"@
    } else if m == 9 {
        "september"@
    } else if m == 10 {
        "oktober"@
    } else if m == 11 {
        "november"@
    } else if m == 12 {
        "december"@
    } else {
        "ooit"@
    }
}

/// The months of quarter `q`, or `ooit` for no quarter.
pub open spec fn quarter_range(q: int) -> Seq<char> {
    if q == 1 {
        "jan–maa"@
    } else if q == 2 {
        "apr–jun"@
    } else if q == 3 {
        "jul–sep"@
    } else if q == 4 {
        "okt–dec"@
    } else {
        "ooit"@
    }
}

fn month_name_text(m: u32) -> (r: &'static str)
    ensures
        r@ == month_name(m as int),
{
    if m == 1 {
        "januari"
    } else if m == 2 {
        "februari"
    } else if m == 3 {
        "maart"
    } else if m == 4 {
        "april"
    } else if m == 5 {
        "mei"
    } else if m == 6 {
        "juni"
    } else if m == 7 {
        "juli"
    } else if m == 8 {
        "augustus"
    } else if m == 9 {
        "september"
    } else if m == 10 {
        "oktober"
    } else if m == 11 {
        "november"
    } else if m == 12 {
        "december"
    } else {
        "ooit"
    }
}

fn quarter_range_text(q: u32) -> (r: &'static str)
    ensures
        r@ == quarter_range(q as int),
{
    if q == 1 {
        "jan–maa"
    } else if q == 2 {
        "apr–jun"
    } else if q == 3 {
        "jul–sep"
    } else if q == 4 {
        "okt–dec"
    } else {
        "ooit"
    }
}

impl YearMonth {
    /// The month in which an invoice was issued, in UTC.
    pub fn of_invoice(f: &Factuur) -> (r: Option<YearMonth>)
        ensures
            year_month_fields(r) == utc_month_of(f.date as int),
            r matches Some(ym) ==> 1 <= ym.month <= 12,
            -1_000_000_000_000 <= f.date <= 1_000_000_000_000 ==> r is Some,
    {
        utc_year_month(f.date)
    }

    /// `{month name} {year}`, as in `mei 2024`.
    pub fn label(&self) -> (r: String)
        ensures
            r@ == month_name(self.month as int) + seq![' '] + int_text(self.year as int),
    {
        let mut s = String::new();
        push_str(&mut s, month_name_text(self.month));
        push_char(&mut s, ' ');
        push_int(&mut s, self.year as i64);
        proof {
            assert(s@ =~= month_name(self.month as int) + seq![' '] + int_text(self.year as int));
        }
        s
    }
}

/// The quarter of month `m`: a third of it, rounded up.
pub open spec fn quarter_of(m: int) -> int {
    (m + 2) / 3
}

impl Quarter {
    /// The quarter that `month` of `year` falls in.
    pub fn of_month(year: i32, month: u32) -> (r: Quarter)
        ensures
            r == (Quarter { year, quarter: quarter_of(month as int) as u32 }),
    {
        let q = month / 3 + if month % 3 == 0 {
            0
        } else {
            1
        };
        Quarter { year, quarter: q }
    }

    /// The quarter in which an invoice was issued, in UTC.
    pub fn of_invoice(f: &Factuur) -> (r: Option<Quarter>)
        ensures
            match utc_month_of(f.date as int) {
                Some((y, m)) => r == Some(
                    Quarter { year: y as i32, quarter: quarter_of(m) as u32 },
                ),
                None => r is None,
            },
    {
        match YearMonth::of_invoice(f) {
            Some(ym) => Some(Quarter::of_month(ym.year, ym.month)),
            None => None,
        }
    }

    /// `{year}Q{quarter} ({months})`, as in `2024Q2 (apr–jun)`.
    pub fn label(&self) -> (r: String)
        ensures
            r@ == int_text(self.year as int) + seq!['Q'] + decimal_text(self.quarter as nat)
                + seq![' ', '('] + quarter_range(self.quarter as int) + seq![')'],
    {
        let mut s = String::new();
        push_int(&mut s, self.year as i64);
        push_char(&mut s, 'Q');
        push_decimal(&mut s, self.quarter as u64);
        push_char(&mut s, ' ');
        push_char(&mut s, '(');
        push_str(&mut s, quarter_range_text(self.quarter));
        push_char(&mut s, ')');
        proof {
            assert(s@ =~= int_text(self.year as int) + seq!['Q'] + decimal_text(
                self.quarter as nat,
            ) + seq![' ', '('] + quarter_range(self.quarter as int) + seq![')']);
        }
        s
    }
}

/// The sum of the subtotals of `fs`, in cents.
pub open spec fn subtotal_sum(fs: Seq<Factuur>) -> int
    decreases fs.len(),
{
    if fs.len() == 0 {
        0
    } else {
        subtotal_sum(fs.drop_last()) + fs.last().subtotal
    }
}

/// The sum of the taxes of `fs`, in cents.
pub open spec fn btw_sum(fs: Seq<Factuur>) -> int
    decreases fs.len(),
{
    if fs.len() == 0 {
        0
    } else {
        btw_sum(fs.drop_last()) + fs.last().btw
    }
}

proof fn lemma_sums_grow(fs: Seq<Factuur>, i: int)
    requires
        0 <= i <= fs.len(),
    ensures
        0 <= subtotal_sum(fs.take(i)) <= subtotal_sum(fs),
        0 <= btw_sum(fs.take(i)) <= btw_sum(fs),
    decreases fs.len(),
{
    if fs.len() > 0 {
        if i == fs.len() {
            assert(fs.take(i) == fs);
            lemma_sums_grow(fs.drop_last(), 0);
            assert(fs.drop_last().take(0) == fs.take(0));
        } else {
            assert(fs.take(i) == fs.drop_last().take(i));
            lemma_sums_grow(fs.drop_last(), i);
        }
    } else {
        assert(fs.take(i) == fs);
    }
}

/// The turnover of invoices: the sum of their subtotals in cents, if it
/// fits in 64 bits.
pub fn sum_invoices(invoices: &Vec<Factuur>) -> (r: Option<u64>)
    ensures
        subtotal_sum(invoices@) <= u64::MAX ==> r == Some(subtotal_sum(invoices@) as u64),
        subtotal_sum(invoices@) > u64::MAX ==> r is None,
{
    let mut total: u64 = 0;
    let mut i: usize = 0;
    while i < invoices.len()
        invariant
            i <= invoices@.len(),
            total == subtotal_sum(invoices@.take(i as int)),
        decreases invoices@.len() - i,
    {
        proof {
            assert(invoices@.take(i + 1).drop_last() == invoices@.take(i as int));
            assert(invoices@.take(i + 1).last() == invoices@[i as int]);
            lemma_sums_grow(invoices@, i + 1);
        }
        if total > u64::MAX - invoices[i].subtotal {
            return None;
        }
        total = total + invoices[i].subtotal;
        i = i + 1;
    }
    proof {
        assert(invoices@.take(i as int) == invoices@);
    }
    Some(total)
}

/// Whether an invoice was issued in `year`, in UTC.
pub open spec fn issued_in(f: Factuur, year: int) -> bool {
    utc_month_of(f.date as int) matches Some((y, m)) && y == year
}

/// The sum of the subtotals of the invoices of `fs` issued in `year`.
pub open spec fn year_turnover(fs: Seq<Factuur>, year: int) -> int
    decreases fs.len(),
{
    if fs.len() == 0 {
        0
    } else {
        year_turnover(fs.drop_last(), year) + if issued_in(fs.last(), year) {
            fs.last().subtotal as int
        } else {
            0
        }
    }
}

proof fn lemma_year_turnover_grows(fs: Seq<Factuur>, year: int, i: int)
    requires
        0 <= i <= fs.len(),
    ensures
        0 <= year_turnover(fs.take(i), year) <= year_turnover(fs, year),
    decreases fs.len(),
{
    if fs.len() > 0 {
        if i == fs.len() {
            assert(fs.take(i) == fs);
            lemma_year_turnover_grows(fs.drop_last(), year, 0);
            assert(fs.drop_last().take(0) == fs.take(0));
        } else {
            assert(fs.take(i) == fs.drop_last().take(i));
            lemma_year_turnover_grows(fs.drop_last(), year, i);
        }
    } else {
        assert(fs.take(i) == fs);
    }
}

/// The turnover of `year`: the sum of the subtotals of the invoices issued
/// in that year (in UTC), in cents, if it fits in 64 bits.
pub fn turnover_in_year(invoices: &Vec<Factuur>, year: i32) -> (r: Option<u64>)
    ensures
        year_turnover(invoices@, year as int) <= u64::MAX ==> r == Some(
            year_turnover(invoices@, year as int) as u64,
        ),
        year_turnover(invoices@, year as int) > u64::MAX ==> r is None,
{
    let mut total: u64 = 0;
    let mut i: usize = 0;
    while i < invoices.len()
        invariant
            i <= invoices@.len(),
            total == year_turnover(invoices@.take(i as int), year as int),
        decreases invoices@.len() - i,
    {
        proof {
            assert(invoices@.take(i + 1).drop_last() == invoices@.take(i as int));
            assert(invoices@.take(i + 1).last() == invoices@[i as int]);
            lemma_year_turnover_grows(invoices@, year as int, i + 1);
        }
        let counts = match YearMonth::of_invoice(&invoices[i]) {
            Some(ym) => ym.year == year,
            None => false,
        };
        if counts {
            if total > u64::MAX - invoices[i].subtotal {
                return None;
            }
            total = total + invoices[i].subtotal;
        }
        i = i + 1;
    }
    proof {
        assert(invoices@.take(i as int) == invoices@);
    }
    Some(total)
}

/// The position of an invoice with the highest number, or `None` for no
/// invoices.
pub fn latest_invoice(invoices: &Vec<Factuur>) -> (r: Option<usize>)
    ensures
        r is None <==> invoices@.len() == 0,
        r matches Some(i) ==> i < invoices@.len() && forall|j: int|
            0 <= j < invoices@.len() ==> (#[trigger] invoices@[j]).nummer <= invoices@[i as int].nummer,
{
    if invoices.len() == 0 {
        return None;
    }
    let mut best: usize = 0;
    let mut i: usize = 1;
    while i < invoices.len()
        invariant
            1 <= i <= invoices@.len(),
            best < i,
            forall|j: int| 0 <= j < i ==> (#[trigger] invoices@[j]).nummer <= invoices@[best as int].nummer,
        decreases invoices@.len() - i,
    {
        if invoices[i].nummer >= invoices[best].nummer {
            best = i;
        }
        i = i + 1;
    }
    Some(best)
}

/// The turnover and tax of a group of invoices, in cents.
#[derive(Debug, Clone)]
pub struct Btw {
    pub omzet: u64,
    pub btw: u64,
    pub invoices: Vec<Factuur>,
}

impl Btw {
    /// The turnover and tax of `invoices`: the sums of their subtotals and
    /// of their taxes, if both fit in 64 bits.
    pub fn of(invoices: Vec<Factuur>) -> (r: Option<Btw>)
        ensures
            subtotal_sum(invoices@) <= u64::MAX && btw_sum(invoices@) <= u64::MAX ==> (r matches Some(
                b,
            ) && b.omzet == subtotal_sum(invoices@) && b.btw == btw_sum(invoices@) && b.invoices@
                == invoices@),
            subtotal_sum(invoices@) > u64::MAX || btw_sum(invoices@) > u64::MAX ==> r is None,
    {
        let omzet = match sum_invoices(&invoices) {
            Some(o) => o,
            None => return None,
        };
        let mut btw: u64 = 0;
        let mut i: usize = 0;
        while i < invoices.len()
            invariant
                i <= invoices@.len(),
                btw == btw_sum(invoices@.take(i as int)),
            decreases invoices@.len() - i,
        {
            proof {
                assert(invoices@.take(i + 1).drop_last() == invoices@.take(i as int));
                assert(invoices@.take(i + 1).last() == invoices@[i as int]);
                lemma_sums_grow(invoices@, i + 1);
            }
            if btw > u64::MAX - invoices[i].btw {
                return None;
            }
            btw = btw + invoices[i].btw;
            i = i + 1;
        }
        proof {
            assert(invoices@.take(i as int) == invoices@);
            lemma_sums_grow(invoices@, 0);
        }
        Some(Btw { omzet, btw, invoices })
    }
}

/// What an invoice holds, as values.
pub struct InvoiceView {
    pub nummer: usize,
    pub client: Client,
    pub work_items: Seq<WorkItem>,
    pub subtotal: u64,
    pub btw: u64,
    pub total: u64,
    pub date: i64,
}

pub open spec fn view_of(f: Factuur) -> InvoiceView {
    InvoiceView {
        nummer: f.nummer,
        client: f.client,
        work_items: f.work_items@,
        subtotal: f.subtotal,
        btw: f.btw,
        total: f.total,
        date: f.date,
    }
}

/// The invoices of `s`, as values, in any order.
pub open spec fn views(s: Seq<Factuur>) -> Multiset<InvoiceView> {
    s.map_values(|f: Factuur| view_of(f)).to_multiset()
}

/// Whether `s` lists the highest invoice numbers first.
pub open spec fn newest_first(s: Seq<Factuur>) -> bool {
    forall|i: int, j: int| 0 <= i < j < s.len() ==> s[i].nummer >= s[j].nummer
}

proof fn lemma_views_insert(s: Seq<Factuur>, i: int, f: Factuur)
    requires
        0 <= i <= s.len(),
    ensures
        views(s.insert(i, f)) == views(s).insert(view_of(f)),
{
    let g = |f: Factuur| view_of(f);
    assert(s.insert(i, f).map_values(g) =~= s.map_values(g).insert(i, view_of(f)));
    vstd::seq_lib::to_multiset_insert(s.map_values(g), i, view_of(f));
}

proof fn lemma_views_len(s: Seq<Factuur>)
    ensures
        views(s).len() == s.len(),
{
    vstd::seq_lib::to_multiset_len(s.map_values(|f: Factuur| view_of(f)));
}

proof fn lemma_views_contains(s: Seq<Factuur>, i: int)
    requires
        0 <= i < s.len(),
    ensures
        views(s).count(view_of(s[i])) > 0,
{
    let m = s.map_values(|f: Factuur| view_of(f));
    assert(m[i] == view_of(s[i]));
    vstd::seq_lib::to_multiset_contains(m, view_of(s[i]));
}

/// Adds `f` to `v`, which lists the highest invoice numbers first, where
/// its number belongs.
fn insert_newest_first(v: &mut Vec<Factuur>, f: Factuur)
    requires
        newest_first(old(v)@),
    ensures
        newest_first(final(v)@),
        final(v)@.len() == old(v)@.len() + 1,
        views(final(v)@) == views(old(v)@).insert(view_of(f)),
{
    let mut p: usize = 0;
    while p < v.len() && v[p].nummer >= f.nummer
        invariant
            p <= v@.len(),
            forall|q: int| 0 <= q < p ==> v@[q].nummer >= f.nummer,
        decreases v@.len() - p,
    {
        p = p + 1;
    }
    let ghost before = v@;
    let ghost fv = f;
    proof {
        lemma_views_insert(before, p as int, fv);
    }
    v.insert(p, f);
    proof {
        let after = v@;
        assert(after == before.insert(p as int, fv));
        assert forall|i: int, j: int| 0 <= i < j < after.len() implies after[i].nummer
            >= after[j].nummer by {
            if j < p {
            } else if j == p {
                assert(after[i] == before[i]);
            } else if i < p {
                assert(after[j] == before[j - 1]);
                assert(before[p as int].nummer < fv.nummer);
            } else if i == p {
                assert(after[j] == before[j - 1]);
                assert(before[p as int].nummer < fv.nummer);
            } else {
                assert(after[i] == before[i - 1]);
                assert(after[j] == before[j - 1]);
            }
        }
    }
}

/// Whether key `a` comes after key `b`: a later year, or the same year and
/// a later month or quarter.
pub open spec fn key_after(a: (i32, u32), b: (i32, u32)) -> bool {
    a.0 > b.0 || (a.0 == b.0 && a.1 > b.1)
}

fn is_after(a: (i32, u32), b: (i32, u32)) -> (r: bool)
    ensures
        r == key_after(a, b),
{
    a.0 > b.0 || (a.0 == b.0 && a.1 > b.1)
}

/// The invoices of `s` filed under key `k`, in order.
pub open spec fn with_key(s: Seq<((i32, u32), Factuur)>, k: (i32, u32)) -> Seq<Factuur>
    decreases s.len(),
{
    if s.len() == 0 {
        Seq::empty()
    } else {
        let rest = with_key(s.drop_first(), k);
        if s[0].0 == k {
            seq![s[0].1] + rest
        } else {
            rest
        }
    }
}

proof fn lemma_with_key_front(s: Seq<((i32, u32), Factuur)>, e: ((i32, u32), Factuur), k: (i32, u32))
    ensures
        with_key(seq![e] + s, k) == if e.0 == k {
            seq![e.1] + with_key(s, k)
        } else {
            with_key(s, k)
        },
{
    let t = seq![e] + s;
    assert(t.drop_first() == s);
    assert(t[0] == e);
}

/// Invoices filed under year-and-month or year-and-quarter keys, grouped by
/// key: the latest key first, each group with the highest invoice numbers
/// first, every invoice in the group of its key and no group empty.
///
/// The groups are wanted in order of their keys, and walking a hash map
/// follows no order, so they are kept in a vector sorted by key as they
/// are filled.
pub fn group_newest_first(entries: Vec<((i32, u32), Factuur)>) -> (r: Vec<((i32, u32), Vec<Factuur>)>)
    ensures
        forall|i: int, j: int| 0 <= i < j < r@.len() ==> key_after(r@[i].0, r@[j].0),
        forall|i: int|
            0 <= i < r@.len() ==> {
                &&& (#[trigger] r@[i]).1@.len() > 0
                &&& newest_first(r@[i].1@)
                &&& views(r@[i].1@) == views(with_key(entries@, r@[i].0))
                &&& with_key(entries@, r@[i].0).len() > 0
            },
        forall|k: (i32, u32)|
            (#[trigger] with_key(entries@, k)).len() > 0 ==> exists|i: int|
                0 <= i < r@.len() && r@[i].0 == k,
{
    let ghost all = entries@;
    let mut rest = entries;
    let mut keys: Vec<(i32, u32)> = Vec::new();
    let mut groups: Vec<Vec<Factuur>> = Vec::new();
    proof {
        assert(all.skip(all.len() as int) == Seq::<((i32, u32), Factuur)>::empty());
    }
    while rest.len() > 0
        invariant
            rest@.len() <= all.len(),
            rest@ == all.take(rest@.len() as int),
            keys@.len() == groups@.len(),
            forall|i: int, j: int| 0 <= i < j < keys@.len() ==> key_after(keys@[i], keys@[j]),
            forall|g: int|
                0 <= g < groups@.len() ==> {
                    &&& (#[trigger] groups@[g])@.len() > 0
                    &&& newest_first(groups@[g]@)
                    &&& views(groups@[g]@) == views(
                        with_key(all.skip(rest@.len() as int), keys@[g]),
                    )
                },
            forall|k: (i32, u32)|
                (#[trigger] with_key(all.skip(rest@.len() as int), k)).len() > 0 ==> exists|g: int|
                    0 <= g < keys@.len() && keys@[g] == k,
        decreases rest@.len(),
    {
        let ghost n = rest@.len() as int;
        let ghost old_keys = keys@;
        let ghost old_groups = groups@;
        let e = rest.pop().unwrap();
        let (k, f) = e;
        let ghost s_old = all.skip(n);
        let ghost s_new = all.skip(n - 1);
        proof {
            assert(all[n - 1] == e);
            assert(s_new == seq![e] + s_old);
            assert(rest@ == all.take(n - 1));
            assert forall|k2: (i32, u32)| with_key(s_new, k2) == if e.0 == k2 {
                seq![f] + with_key(s_old, k2)
            } else {
                with_key(s_old, k2)
            } by {
                lemma_with_key_front(s_old, e, k2);
            }
        }
        let mut p: usize = 0;
        while p < keys.len() && is_after(keys[p], k)
            invariant
                keys@ == old_keys,
                p <= keys@.len(),
                forall|q: int| 0 <= q < p ==> key_after(keys@[q], k),
            decreases keys@.len() - p,
        {
            p = p + 1;
        }
        if p < keys.len() && keys[p].0 == k.0 && keys[p].1 == k.1 {
            let mut grp = groups.remove(p);
            let ghost before = grp@;
            insert_newest_first(&mut grp, f);
            groups.insert(p, grp);
            proof {
                assert(keys@[p as int] == k);
                assert(before == old_groups[p as int]@);
                assert(groups@ == old_groups.update(p as int, grp));
                lemma_views_insert(with_key(s_old, k), 0, f);
                assert(seq![f] + with_key(s_old, k) == with_key(s_old, k).insert(0, f));
                assert forall|g: int| 0 <= g < groups@.len() implies {
                    &&& (#[trigger] groups@[g])@.len() > 0
                    &&& newest_first(groups@[g]@)
                    &&& views(groups@[g]@) == views(with_key(s_new, keys@[g]))
                } by {
                    if g == p {
                        assert(groups@[g] == grp);
                        assert(with_key(s_new, keys@[g]) == with_key(s_old, k).insert(0, f));
                    } else {
                        assert(groups@[g] == old_groups[g]);
                        assert(keys@[g] != k) by {
                            if g < p {
                                assert(key_after(keys@[g], keys@[p as int]));
                            } else {
                                assert(key_after(keys@[p as int], keys@[g]));
                            }
                        }
                    }
                }
                assert forall|k2: (i32, u32)| (#[trigger] with_key(s_new, k2)).len() > 0 implies exists|
                    g: int,
                | 0 <= g < keys@.len() && keys@[g] == k2 by {
                    if k2 == k {
                        assert(keys@[p as int] == k2);
                    } else {
                        assert(with_key(s_old, k2).len() > 0);
                    }
                }
            }
        } else {
            proof {
                assert forall|g: int| 0 <= g < keys@.len() implies keys@[g] != k by {
                    if g < p {
                        assert(key_after(keys@[g], k));
                    } else if g == p {
                    } else {
                        assert(key_after(keys@[p as int], keys@[g]));
                    }
                }
                assert(with_key(s_old, k).len() == 0);
                assert(with_key(s_new, k) == seq![f]);
                assert(with_key(s_new, k) == Seq::<Factuur>::empty().insert(0, f));
                lemma_views_insert(Seq::<Factuur>::empty(), 0, f);
            }
            keys.insert(p, k);
            let mut grp: Vec<Factuur> = Vec::new();
            grp.push(f);
            groups.insert(p, grp);
            proof {
                assert(grp@ == Seq::<Factuur>::empty().insert(0, f));
                assert(keys@ == old_keys.insert(p as int, k));
                assert(groups@ == old_groups.insert(p as int, grp));
                assert forall|i: int, j: int| 0 <= i < j < keys@.len() implies key_after(
                    keys@[i],
                    keys@[j],
                ) by {
                    if j < p {
                    } else if j == p {
                    } else if i < p {
                        assert(keys@[j] == old_keys[j - 1]);
                        if j - 1 > p {
                            assert(key_after(old_keys[p as int], old_keys[j - 1]));
                        }
                        assert(!key_after(old_keys[p as int], k) && old_keys[p as int] != k);
                    } else if i == p {
                        assert(keys@[j] == old_keys[j - 1]);
                        if j - 1 > p {
                            assert(key_after(old_keys[p as int], old_keys[j - 1]));
                        }
                        assert(!key_after(old_keys[p as int], k) && old_keys[p as int] != k);
                    } else {
                        assert(keys@[i] == old_keys[i - 1]);
                        assert(keys@[j] == old_keys[j - 1]);
                    }
                }
                assert forall|g: int| 0 <= g < groups@.len() implies {
                    &&& (#[trigger] groups@[g])@.len() > 0
                    &&& newest_first(groups@[g]@)
                    &&& views(groups@[g]@) == views(with_key(s_new, keys@[g]))
                } by {
                    if g < p {
                        assert(groups@[g] == old_groups[g]);
                        assert(keys@[g] == old_keys[g]);
                    } else if g > p {
                        assert(groups@[g] == old_groups[g - 1]);
                        assert(keys@[g] == old_keys[g - 1]);
                    }
                }
                assert forall|k2: (i32, u32)| (#[trigger] with_key(s_new, k2)).len() > 0 implies exists|
                    g: int,
                | 0 <= g < keys@.len() && keys@[g] == k2 by {
                    if k2 == k {
                        assert(keys@[p as int] == k2);
                    } else {
                        assert(with_key(s_old, k2).len() > 0);
                        let g0 = choose|g: int| 0 <= g < old_keys.len() && old_keys[g] == k2;
                        if g0 < p {
                            assert(keys@[g0] == k2);
                        } else {
                            assert(keys@[g0 + 1] == k2);
                        }
                    }
                }
            }
        }
    }
    proof {
        assert(all.skip(rest@.len() as int) == all);
    }
    let ghost all_keys = keys@;
    let ghost all_groups = groups@;
    let mut out: Vec<((i32, u32), Vec<Factuur>)> = Vec::new();
    while keys.len() > 0
        invariant
            all_keys.len() == all_groups.len(),
            keys@.len() == groups@.len(),
            keys@.len() + out@.len() == all_keys.len(),
            keys@ == all_keys.take(keys@.len() as int),
            groups@ == all_groups.take(groups@.len() as int),
            forall|i: int|
                0 <= i < out@.len() ==> (#[trigger] out@[i]).0 == all_keys[keys@.len() + i]
                    && out@[i].1 == all_groups[keys@.len() + i],
        decreases keys@.len(),
    {
        let ghost old_out = out@;
        let k = keys.pop().unwrap();
        let grp = groups.pop().unwrap();
        proof {
            assert(keys@ == all_keys.take(keys@.len() as int));
            assert(groups@ == all_groups.take(groups@.len() as int));
            assert(k == all_keys[keys@.len() as int]);
            assert(grp == all_groups[groups@.len() as int]);
        }
        out.insert(0, (k, grp));
        proof {
            assert(out@ == old_out.insert(0, (k, grp)));
            assert forall|i: int| 0 <= i < out@.len() implies (#[trigger] out@[i]).0 == all_keys[keys@.len() + i]
                && out@[i].1 == all_groups[keys@.len() + i] by {
                if i > 0 {
                    assert(out@[i] == old_out[i - 1]);
                }
            }
        }
    }
    proof {
        assert forall|i: int| 0 <= i < out@.len() implies out@[i].0 == all_keys[i] && out@[i].1
            == all_groups[i] by {
            assert(out@[i].0 == all_keys[keys@.len() + i]);
        }
        assert forall|i: int| 0 <= i < out@.len() implies with_key(all, (#[trigger] out@[i]).0).len()
            > 0 by {
            lemma_views_len(out@[i].1@);
            lemma_views_len(with_key(all, out@[i].0));
        }
        assert forall|k: (i32, u32)| (#[trigger] with_key(entries@, k)).len() > 0 implies exists|
            i: int,
        | 0 <= i < out@.len() && out@[i].0 == k by {
            let g = choose|g: int| 0 <= g < all_keys.len() && all_keys[g] == k;
            assert(out@[g].0 == k);
        }
    }
    out
}

/// The key of an invoice: the UTC year and month it was issued in, or the
/// year and quarter; none where its date lies outside chrono's range.
pub open spec fn period_key(f: Factuur, by_quarter: bool) -> Option<(i32, u32)> {
    match utc_month_of(f.date as int) {
        Some((y, m)) => Some(
            (y as i32, if by_quarter {
                quarter_of(m) as u32
            } else {
                m as u32
            }),
        ),
        None => None,
    }
}

/// The invoices of `s` with their keys, in order, leaving out those
/// without one.
pub open spec fn keyed(s: Seq<Factuur>, by_quarter: bool) -> Seq<((i32, u32), Factuur)>
    decreases s.len(),
{
    if s.len() == 0 {
        Seq::empty()
    } else {
        let rest = keyed(s.drop_first(), by_quarter);
        match period_key(s[0], by_quarter) {
            Some(k) => seq![(k, s[0])] + rest,
            None => rest,
        }
    }
}

/// The highest month or quarter number.
pub open spec fn period_count(by_quarter: bool) -> int {
    if by_quarter {
        4
    } else {
        12
    }
}

proof fn lemma_with_key_member(s: Seq<((i32, u32), Factuur)>, k: (i32, u32))
    requires
        with_key(s, k).len() > 0,
    ensures
        exists|j: int| 0 <= j < s.len() && s[j].0 == k,
    decreases s.len(),
{
    if s[0].0 != k {
        lemma_with_key_member(s.drop_first(), k);
        let j = choose|j: int| 0 <= j < s.drop_first().len() && s.drop_first()[j].0 == k;
        assert(s[j + 1].0 == k);
    }
}

proof fn lemma_keyed_covers(s: Seq<Factuur>, by_quarter: bool, j: int)
    requires
        0 <= j < s.len(),
        period_key(s[j], by_quarter) is Some,
    ensures
        with_key(keyed(s, by_quarter), period_key(s[j], by_quarter)->0).contains(s[j]),
    decreases s.len(),
{
    let k = period_key(s[j], by_quarter)->0;
    let rest = keyed(s.drop_first(), by_quarter);
    if j == 0 {
        lemma_with_key_front(rest, (k, s[0]), k);
        assert((seq![s[0]] + with_key(rest, k))[0] == s[0]);
    } else {
        assert(s.drop_first()[j - 1] == s[j]);
        lemma_keyed_covers(s.drop_first(), by_quarter, j - 1);
        let w = with_key(rest, k);
        let i0 = choose|i: int| 0 <= i < w.len() && w[i] == s[j];
        if let Some(k0) = period_key(s[0], by_quarter) {
            lemma_with_key_front(rest, (k0, s[0]), k);
            if k0 == k {
                assert((seq![s[0]] + w)[i0 + 1] == s[j]);
            }
        }
    }
}

/// Files each invoice under its month, or its quarter, in UTC.
pub fn key_by_period(invoices: Vec<Factuur>, by_quarter: bool) -> (r: Vec<((i32, u32), Factuur)>)
    ensures
        r@ == keyed(invoices@, by_quarter),
        forall|i: int| 0 <= i < r@.len() ==> 1 <= (#[trigger] r@[i]).0.1 <= period_count(by_quarter),
{
    let ghost all = invoices@;
    let mut rest = invoices;
    let mut out: Vec<((i32, u32), Factuur)> = Vec::new();
    proof {
        assert(all.skip(all.len() as int) == Seq::<Factuur>::empty());
    }
    while rest.len() > 0
        invariant
            rest@.len() <= all.len(),
            rest@ == all.take(rest@.len() as int),
            out@ == keyed(all.skip(rest@.len() as int), by_quarter),
            forall|i: int| 0 <= i < out@.len() ==> 1 <= (#[trigger] out@[i]).0.1 <= period_count(by_quarter),
        decreases rest@.len(),
    {
        let ghost n = rest@.len() as int;
        let f = rest.pop().unwrap();
        proof {
            assert(all[n - 1] == f);
            assert(all.skip(n - 1).drop_first() == all.skip(n));
            assert(all.skip(n - 1)[0] == f);
            assert(rest@ == all.take(n - 1));
        }
        match YearMonth::of_invoice(&f) {
            Some(ym) => {
                let k = if by_quarter {
                    (ym.year, Quarter::of_month(ym.year, ym.month).quarter)
                } else {
                    (ym.year, ym.month)
                };
                let ghost old_out = out@;
                out.insert(0, (k, f));
                proof {
                    assert(out@ == seq![(k, f)] + old_out);
                    assert(1 <= k.1 <= period_count(by_quarter));
                    assert forall|i: int| 0 <= i < out@.len() implies 1 <= (#[trigger] out@[i]).0.1
                        <= period_count(by_quarter) by {
                        if i > 0 {
                            assert(out@[i] == old_out[i - 1]);
                        }
                    }
                }
            },
            None => {},
        }
    }
    proof {
        assert(all.skip(0) == all);
    }
    out
}

/// The invoices grouped by the month they were issued in (or the quarter):
/// the latest first, each group with the highest invoice numbers first.
/// Every invoice whose date has a UTC month (every date within a million
/// million seconds of 1970 has one) is in the group of its month or
/// quarter; the others are left out.
pub fn group_by_period(invoices: Vec<Factuur>, by_quarter: bool) -> (r: Vec<((i32, u32), Vec<Factuur>)>)
    ensures
        forall|i: int| 0 <= i < r@.len() ==> 1 <= (#[trigger] r@[i]).0.1 <= period_count(by_quarter),
        forall|j: int|
            0 <= j < invoices@.len() && (#[trigger] utc_month_of(invoices@[j].date as int)) is Some
                ==> exists|i: int|
                0 <= i < r@.len() && r@[i].0 == period_key(invoices@[j], by_quarter)->0 && views(
                    r@[i].1@,
                ).count(view_of(invoices@[j])) > 0,
        forall|i: int, j: int| 0 <= i < j < r@.len() ==> key_after(r@[i].0, r@[j].0),
        forall|i: int|
            0 <= i < r@.len() ==> {
                &&& (#[trigger] r@[i]).1@.len() > 0
                &&& newest_first(r@[i].1@)
                &&& views(r@[i].1@) == views(with_key(keyed(invoices@, by_quarter), r@[i].0))
            },
        forall|k: (i32, u32)|
            (#[trigger] with_key(keyed(invoices@, by_quarter), k)).len() > 0 ==> exists|i: int|
                0 <= i < r@.len() && r@[i].0 == k,
{
    let ghost all = invoices@;
    let entries = key_by_period(invoices, by_quarter);
    let ghost e = entries@;
    let r = group_newest_first(entries);
    proof {
        assert forall|i: int| 0 <= i < r@.len() implies 1 <= (#[trigger] r@[i]).0.1 <= period_count(
            by_quarter,
        ) by {
            lemma_with_key_member(e, r@[i].0);
            let j = choose|j: int| 0 <= j < e.len() && e[j].0 == r@[i].0;
            assert(1 <= e[j].0.1 <= period_count(by_quarter));
        }
        assert forall|j: int|
            0 <= j < all.len() && (#[trigger] utc_month_of(all[j].date as int)) is Some implies exists|
            i: int,
        |
            0 <= i < r@.len() && r@[i].0 == period_key(all[j], by_quarter)->0 && views(
                r@[i].1@,
            ).count(view_of(all[j])) > 0 by {
            let k = period_key(all[j], by_quarter)->0;
            lemma_keyed_covers(all, by_quarter, j);
            let w = with_key(e, k);
            let p = choose|p: int| 0 <= p < w.len() && w[p] == all[j];
            assert(w.len() > 0);
            let i = choose|i: int| 0 <= i < r@.len() && r@[i].0 == k;
            lemma_views_contains(w, p);
        }
    }
    r
}

} // verus!

use creatief_vakvrouw::anita::{Anita, AnitaError};
use creatief_vakvrouw::event::{Day, Event, Rooster, Week};
use creatief_vakvrouw::factuur::{
    price_cents, Client, Factuur, FactuurErrorKind, FactuurForm, Instant, SynthesisError, WorkItem,
    ASSUMED_OFFSET, BTW_PERCENT,
};

fn shift(date: &str, start: &str, end: &str) -> Event {
    Event {
        person: "Noemi".to_string(),
        event_type: "Bar".to_string(),
        date: date.to_string(),
        start_to_end: "09:00 - 13:30".to_string(),
        start: start.to_string(),
        end: end.to_string(),
    }
}

fn client() -> Client {
    Client {
        name: "V.O.F. De Nieuwe Anita".to_string(),
        address: "Straat 1".to_string(),
        zip: "1234 AB".to_string(),
    }
}

fn item(cents: u64) -> WorkItem {
    WorkItem { desc: "werk".to_string(), cents }
}

#[test]
fn four_and_a_half_hours_at_twenty_euros() {
    // 2024-05-01T09:00 and 13:30 at +01:00, in seconds since the epoch.
    let start = Instant { seconds: 1714550400, nanos: 0 };
    let end = Instant { seconds: 1714566600, nanos: 0 };
    let e = shift("2024-05-01", "2024-05-01T09:00", "2024-05-01T13:30");
    let w = WorkItem::from_instants(&e, start, end, 2000).unwrap();
    assert_eq!(w.cents, 9000);
    assert_eq!(w.desc, "Bar 2024-05-01 (09:00 - 13:30)");
}

#[test]
fn shift_read_from_rfc3339_times() {
    let e = shift("2024-05-01", "2024-05-01T09:00:00", "2024-05-01T13:30:00");
    let w = WorkItem::try_from_event(&e, 2000).unwrap();
    assert_eq!(w.cents, 9000);
    let w = WorkItem::try_from_event(&e, 2200).unwrap();
    assert_eq!(w.cents, 9900);
}

#[test]
fn times_without_seconds_are_read_at_second_zero() {
    let e = shift("2024-05-01", "2024-05-01T09:00", "2024-05-01T13:30");
    let w = WorkItem::try_from_event(&e, 2000).unwrap();
    assert_eq!(w.cents, 9000);
    assert_eq!(w.desc, "Bar 2024-05-01 (09:00 - 13:30)");
    let mixed = shift("2024-05-01", "2024-05-01T09:00", "2024-05-01T13:30:00");
    assert_eq!(WorkItem::try_from_event(&mixed, 2000).unwrap().cents, 9000);
    let short = shift("2024-05-01", "2024-05-01T09", "2024-05-01T13:30");
    let r = WorkItem::try_from_event(&short, 2000);
    assert!(matches!(r, Err(ref err) if matches!(err.kind, FactuurErrorKind::ParseDate(_))));
}

#[test]
fn offset_is_applied_to_both_ends() {
    assert_eq!(ASSUMED_OFFSET, "+01:00");
    let e = shift("2024-05-01", "2024-05-01T23:00:00", "2024-05-02T01:15:00");
    let w = WorkItem::try_from_event(&e, 6000).unwrap();
    assert_eq!(w.cents, 13500);
}

#[test]
fn amounts_round_to_the_nearest_cent() {
    let e = shift("2024-05-01", "", "");
    let start = Instant { seconds: 0, nanos: 0 };
    // 7 minutes at 1 cent per hour is 0.1166 cents.
    let w = WorkItem::from_instants(&e, start, Instant { seconds: 420, nanos: 0 }, 1).unwrap();
    assert_eq!(w.cents, 0);
    // 30 minutes at 1 cent per hour is half a cent, rounded up.
    let w = WorkItem::from_instants(&e, start, Instant { seconds: 1800, nanos: 0 }, 1).unwrap();
    assert_eq!(w.cents, 1);
    // 59.9 seconds is no whole minute.
    let r = WorkItem::from_instants(&e, start, Instant { seconds: 59, nanos: 900_000_000 }, 100);
    assert!(matches!(r, Err(ref err) if matches!(err.kind, FactuurErrorKind::NonPositiveDuration)));
}

#[test]
fn non_positive_shifts_are_rejected() {
    let e = shift("2024-05-01", "2024-05-01T13:30:00", "2024-05-01T09:00:00");
    let r = WorkItem::try_from_event(&e, 2000);
    assert!(matches!(r, Err(ref err) if matches!(err.kind, FactuurErrorKind::NonPositiveDuration)));
    let e = shift("2024-05-01", "2024-05-01T09:00:00", "2024-05-01T09:00:00");
    let r = WorkItem::try_from_event(&e, 2000);
    assert!(matches!(r, Err(ref err) if matches!(err.kind, FactuurErrorKind::NonPositiveDuration)));
}

#[test]
fn huge_amounts_are_rejected() {
    let e = shift("2024-05-01", "", "");
    let start = Instant { seconds: 0, nanos: 0 };
    let end = Instant { seconds: 3600 * 1000, nanos: 0 };
    let r = WorkItem::from_instants(&e, start, end, u64::MAX);
    assert!(matches!(r, Err(ref err) if matches!(err.kind, FactuurErrorKind::AmountOutOfRange)));
}

#[test]
fn unparseable_shifts_are_dropped() {
    let events = vec![
        shift("2024-05-01", "2024-05-01T09:00:00", "2024-05-01T13:30:00"),
        shift("2024-05-02", "gisteren", "2024-05-02T13:30:00"),
        shift("2024-05-03", "2024-05-03T10:00:00", "2024-05-03T09:00:00"),
        shift("2024-05-04", "2024-05-04T09:00:00", "2024-05-04T16:30:00"),
    ];
    let items = WorkItem::from_events(&events, 2000);
    assert_eq!(items.len(), 2);
    assert_eq!(items[0].cents, 9000);
    assert_eq!(items[1].cents, 15000);
    assert_eq!(items[1].desc, "Bar 2024-05-04 (09:00 - 13:30)");
}

#[test]
fn no_items_is_no_billable_work() {
    let r = Factuur::new(1, client(), vec![], 0);
    assert!(matches!(r, Err(ref err) if matches!(err.kind, FactuurErrorKind::NoBillableWork)));
}

#[test]
fn tax_is_rounded_to_cents() {
    assert_eq!(BTW_PERCENT, 21);
    let f = Factuur::new(7, client(), vec![item(9000), item(1050)], 1700000000).unwrap();
    assert_eq!(f.subtotal, 10050);
    assert_eq!(f.btw, 2111);
    assert_eq!(f.total, 12161);
    assert_eq!(f.nummer, 7);
    assert_eq!(f.date, 1700000000);
    assert_eq!(f.client.name, "V.O.F. De Nieuwe Anita");
    let f = Factuur::new(8, client(), vec![item(50)], 0).unwrap();
    assert_eq!(f.btw, 11);
    assert_eq!(f.total, 61);
    let f = Factuur::new(9, client(), vec![item(0)], 0).unwrap();
    assert_eq!((f.subtotal, f.btw, f.total), (0, 0, 0));
}

#[test]
fn totals_out_of_range() {
    let r = Factuur::new(1, client(), vec![item(u64::MAX), item(1)], 0);
    assert!(matches!(r, Err(ref err) if matches!(err.kind, FactuurErrorKind::AmountOutOfRange)));
    let r = Factuur::new(1, client(), vec![item(u64::MAX / 100 * 90)], 0);
    assert!(matches!(r, Err(ref err) if matches!(err.kind, FactuurErrorKind::AmountOutOfRange)));
}

#[test]
fn issued_invoices_carry_the_time() {
    let f = Factuur::issue(3, client(), vec![item(100)]).unwrap();
    assert!(f.date > 1_600_000_000);
    assert_eq!(f.total, 121);
}

fn payloads() -> Vec<Week> {
    let day = |date: &str, start: &str, end: &str| Day {
        date: date.to_string(),
        events: vec![shift(date, start, end)],
    };
    vec![
        Week {
            start_date: "2024-04-29".to_string(),
            end_date: "2024-05-05".to_string(),
            schedule: vec![Rooster {
                name: "Bediening".to_string(),
                days: vec![
                    day("2024-04-30", "2024-04-30T09:00:00", "2024-04-30T17:00:00"),
                    day("2024-05-01", "2024-05-01T09:00:00", "2024-05-01T13:30:00"),
                ],
            }],
        },
        Week {
            start_date: "2024-05-27".to_string(),
            end_date: "2024-06-02".to_string(),
            schedule: vec![Rooster {
                name: "Bediening".to_string(),
                days: vec![
                    day("2024-05-31", "2024-05-31T09:00:00", "2024-05-31T16:30:00"),
                    day("2024-06-01", "2024-06-01T09:00:00", "2024-06-01T17:00:00"),
                ],
            }],
        },
    ]
}

#[test]
fn synthesis_is_repeatable() {
    let anita = Anita::new("Noemi".to_string());
    let a = Factuur::synthesize(&anita, 5, 2024, 2000, 12, client(), &payloads(), 100).unwrap();
    let b = Factuur::synthesize(&anita, 5, 2024, 2000, 12, client(), &payloads(), 200).unwrap();
    assert_eq!(a.work_items, b.work_items);
    assert_eq!((a.subtotal, a.btw, a.total), (b.subtotal, b.btw, b.total));
    assert_eq!(a.subtotal, 9000 + 15000);
    assert_eq!(a.btw, 5040);
    assert_eq!(a.total, 29040);
    assert_eq!((a.date, b.date), (100, 200));
}

#[test]
fn synthesis_errors() {
    let anita = Anita::new("Max".to_string());
    let r = Factuur::synthesize(&anita, 5, 2024, 2000, 12, client(), &payloads(), 0);
    assert!(matches!(r, Err(SynthesisError::Invoice(ref e)) if matches!(e.kind, FactuurErrorKind::NoBillableWork)));
    let anita = Anita::new("Noemi".to_string());
    let r = Factuur::synthesize(&anita, 14, 2024, 2000, 12, client(), &payloads(), 0);
    assert!(matches!(r, Err(SynthesisError::Schedule(AnitaError::InvalidMonth))));
}

#[test]
fn prices_read_as_cents() {
    assert_eq!(price_cents("12"), Some(1200));
    assert_eq!(price_cents("12.5"), Some(1250));
    assert_eq!(price_cents("12.05"), Some(1205));
    assert_eq!(price_cents("0.99"), Some(99));
    assert_eq!(price_cents("12.345"), None);
    assert_eq!(price_cents("12,50"), None);
    assert_eq!(price_cents(".5"), Some(50));
    assert_eq!(price_cents("5."), Some(500));
    assert_eq!(price_cents(".05"), Some(5));
    assert_eq!(price_cents("."), None);
    assert_eq!(price_cents("1e3"), None);
    assert_eq!(price_cents("1.2.3"), None);
    assert_eq!(price_cents(""), None);
    assert_eq!(price_cents("184467440737095516"), Some(18446744073709551600));
    assert_eq!(price_cents("184467440737095517"), None);
}

#[test]
fn form_becomes_invoice() {
    let form = FactuurForm {
        factuur_nummer: 42,
        client_name: "Klant".to_string(),
        client_address: "Weg 2".to_string(),
        client_zip: "4321 BA".to_string(),
        tasks: vec!["Ontwerp".to_string(), "".to_string(), "Drukwerk".to_string(), "Extra".to_string(), "Over".to_string()],
        prices: vec!["100".to_string(), "50".to_string(), "12.50".to_string(), "gratis".to_string()],
    };
    let items = form.work_items();
    assert_eq!(items.len(), 2);
    assert_eq!(items[0], WorkItem { desc: "Ontwerp".to_string(), cents: 10000 });
    assert_eq!(items[1], WorkItem { desc: "Drukwerk".to_string(), cents: 1250 });
    let f = Factuur::from_form(form).unwrap();
    assert_eq!(f.nummer, 42);
    assert_eq!(f.client.zip, "4321 BA");
    assert_eq!((f.subtotal, f.btw, f.total), (11250, 2363, 13613));
}

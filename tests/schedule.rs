use creatief_vakvrouw::anita::{Anita, AnitaError, Month};
use creatief_vakvrouw::calendar::{first_day_out_of_scope, month_prefix_text, start_week, Date};
use creatief_vakvrouw::event::{Day, Event, Rooster, Week};

fn event(person: &str, date: &str) -> Event {
    Event {
        person: person.to_string(),
        event_type: "Bar".to_string(),
        date: date.to_string(),
        start_to_end: "09:00 - 13:30".to_string(),
        start: format!("{date}T09:00:00"),
        end: format!("{date}T13:30:00"),
    }
}

fn week(end_date: &str, events: Vec<Event>) -> Week {
    let days = events
        .into_iter()
        .map(|e| Day { date: e.date.clone(), events: vec![e] })
        .collect();
    Week {
        start_date: "2024-01-01".to_string(),
        end_date: end_date.to_string(),
        schedule: vec![Rooster { name: "Bediening".to_string(), days }],
    }
}

#[test]
fn start_week_is_four_per_month() {
    for month in 1..=12u32 {
        assert_eq!(start_week(month), month * 4 - 4);
    }
    assert_eq!(start_week(1), 0);
    assert_eq!(start_week(12), 44);
}

#[test]
fn boundary_of_december_rolls_over() {
    assert_eq!(first_day_out_of_scope(2024, 12), Ok(Date { year: 2025, month: 1, day: 1 }));
}

#[test]
fn boundary_of_other_months() {
    assert_eq!(first_day_out_of_scope(2024, 1), Ok(Date { year: 2024, month: 2, day: 1 }));
    assert_eq!(first_day_out_of_scope(2023, 11), Ok(Date { year: 2023, month: 12, day: 1 }));
}

#[test]
fn boundary_rejects_bad_months() {
    assert_eq!(first_day_out_of_scope(2024, 0), Err(AnitaError::InvalidMonth));
    assert_eq!(first_day_out_of_scope(2024, 13), Err(AnitaError::InvalidMonth));
}

#[test]
fn boundary_out_of_chrono_range() {
    assert_eq!(first_day_out_of_scope(262142, 12), Err(AnitaError::DateRange));
    assert_eq!(first_day_out_of_scope(i32::MAX, 12), Err(AnitaError::DateRange));
    assert_eq!(
        first_day_out_of_scope(262142, 11),
        Ok(Date { year: 262142, month: 12, day: 1 })
    );
}

#[test]
fn month_prefix_pads_the_month() {
    assert_eq!(month_prefix_text(2024, 5), "2024-05");
    assert_eq!(month_prefix_text(2024, 11), "2024-11");
    assert_eq!(month_prefix_text(-7, 3), "-7-03");
}

#[test]
fn end_dates_are_read_as_iso_dates() {
    let anita = Anita::new("Noemi".to_string());
    let mut fetch = anita.start_month(5, 2024).unwrap();
    fetch.receive(&week("2024-05-31", vec![])).unwrap();
    assert!(!fetch.is_done());
    fetch.receive(&week("2024-06-01", vec![])).unwrap();
    assert!(fetch.is_done());
    let mut fetch = anita.start_month(2, 2024).unwrap();
    assert_eq!(fetch.receive(&week("2024-02-30", vec![])), Err(AnitaError::MalformedPayload));
    assert_eq!(fetch.receive(&week("2024-3-01", vec![])), Ok(()));
    assert!(fetch.is_done());
}

#[test]
fn date_order() {
    let a = Date { year: 2024, month: 5, day: 31 };
    let b = Date { year: 2024, month: 6, day: 1 };
    assert!(b.is_on_or_after(&a));
    assert!(!a.is_on_or_after(&b));
    assert!(a.is_on_or_after(&a));
}

#[test]
fn other_months_are_never_kept() {
    let anita = Anita::new("Noemi".to_string());
    let w = week(
        "2024-05-05",
        vec![event("Noemi", "2024-04-30"), event("Noemi", "2024-05-01"), event("Noemi", "2023-05-02")],
    );
    let kept = anita.select_events(&w, 2024, 5);
    assert_eq!(kept.len(), 1);
    assert_eq!(kept[0].date, "2024-05-01");
}

#[test]
fn other_people_are_never_kept() {
    let anita = Anita::new("Noemi".to_string());
    let w = week(
        "2024-05-05",
        vec![event("Max", "2024-05-01"), event("noemi", "2024-05-02"), event("Noemi", "2024-05-03")],
    );
    let kept = anita.select_events(&w, 2024, 5);
    assert_eq!(kept.len(), 1);
    assert_eq!(kept[0].person, "Noemi");
    assert_eq!(kept[0].date, "2024-05-03");
}

#[test]
fn events_keep_layer_and_day_order() {
    let anita = Anita::new("Noemi".to_string());
    let mut w = week("2024-05-05", vec![event("Noemi", "2024-05-02"), event("Noemi", "2024-05-01")]);
    w.schedule.push(Rooster {
        name: "Keuken".to_string(),
        days: vec![Day { date: "2024-05-01".to_string(), events: vec![event("Noemi", "2024-05-01")] }],
    });
    assert_eq!(w.all_events().len(), 3);
    let kept = anita.select_events(&w, 2024, 5);
    let dates: Vec<&str> = kept.iter().map(|e| e.date.as_str()).collect();
    assert_eq!(dates, vec!["2024-05-02", "2024-05-01", "2024-05-01"]);
}

#[test]
fn collection_stops_at_first_week_past_the_month() {
    let anita = Anita::new("Noemi".to_string());
    let payloads = vec![
        week("2024-05-05", vec![event("Noemi", "2024-04-30"), event("Noemi", "2024-05-02")]),
        week("2024-05-12", vec![event("Noemi", "2024-05-08")]),
        week("2024-05-26", vec![]),
        week("2024-06-02", vec![event("Noemi", "2024-05-31"), event("Noemi", "2024-06-01")]),
        week("2024-06-09", vec![event("Noemi", "2024-06-05")]),
    ];
    let (events, fetched) = anita.collect_month(5, 2024, &payloads).unwrap();
    assert_eq!(fetched, 4);
    let dates: Vec<&str> = events.iter().map(|e| e.date.as_str()).collect();
    assert_eq!(dates, vec!["2024-05-02", "2024-05-08", "2024-05-31"]);
}

#[test]
fn collection_always_fetches_once() {
    let anita = Anita::new("Noemi".to_string());
    let payloads = vec![week("2024-07-07", vec![event("Noemi", "2024-05-02")])];
    let (events, fetched) = anita.collect_month(5, 2024, &payloads).unwrap();
    assert_eq!(fetched, 1);
    assert_eq!(events.len(), 1);
}

#[test]
fn collection_of_december_ends_in_january() {
    let anita = Anita::new("Noemi".to_string());
    let payloads = vec![
        week("2024-12-29", vec![event("Noemi", "2024-12-24")]),
        week("2024-12-31", vec![event("Noemi", "2024-12-31")]),
        week("2025-01-05", vec![event("Noemi", "2025-01-02")]),
    ];
    let (events, fetched) = anita.collect_month(12, 2024, &payloads).unwrap();
    assert_eq!(fetched, 3);
    assert_eq!(events.len(), 2);
}

#[test]
fn collection_errors() {
    let anita = Anita::new("Noemi".to_string());
    let short = vec![week("2024-05-05", vec![])];
    assert_eq!(anita.collect_month(5, 2024, &short).unwrap_err(), AnitaError::IncompleteMonth);
    let bad = vec![week("soon", vec![])];
    assert_eq!(anita.collect_month(5, 2024, &bad).unwrap_err(), AnitaError::MalformedPayload);
    assert_eq!(anita.collect_month(13, 2024, &short).unwrap_err(), AnitaError::InvalidMonth);
    assert_eq!(anita.collect_month(12, 262142, &short).unwrap_err(), AnitaError::DateRange);
}

#[test]
fn month_fetch_asks_week_by_week() {
    let anita = Anita::new("Noemi".to_string());
    let mut fetch = anita.start_month(5, 2024).unwrap();
    assert_eq!(fetch.next_request(), Some((2024, 16)));
    fetch.receive(&week("2024-05-05", vec![event("Noemi", "2024-05-01")])).unwrap();
    assert_eq!(fetch.next_request(), Some((2024, 17)));
    assert!(!fetch.is_done());
    fetch.receive(&week("2024-06-01", vec![event("Noemi", "2024-05-31")])).unwrap();
    assert!(fetch.is_done());
    assert_eq!(fetch.next_request(), None);
    assert_eq!(fetch.events().len(), 2);
    assert_eq!(fetch.into_events().len(), 2);
}

#[test]
fn month_fetch_keeps_state_on_error() {
    let anita = Anita::new("Noemi".to_string());
    let mut fetch = anita.start_month(5, 2024).unwrap();
    assert_eq!(fetch.receive(&week("??", vec![event("Noemi", "2024-05-01")])), Err(AnitaError::MalformedPayload));
    assert_eq!(fetch.next_request(), Some((2024, 16)));
    assert_eq!(fetch.events().len(), 0);
}

#[test]
fn start_month_errors() {
    let anita = Anita::new("Noemi".to_string());
    assert!(matches!(anita.start_month(0, 2024), Err(AnitaError::InvalidMonth)));
    assert!(matches!(anita.start_month(12, 262142), Err(AnitaError::DateRange)));
}

#[test]
fn month_notation() {
    let m = Month::parse("2024-05".to_string()).unwrap();
    assert_eq!(m.year_month(), Ok((2024, 5)));
    assert!(matches!(Month::parse("202405".to_string()), Err(AnitaError::InvalidMonthNotation)));
    assert_eq!(Month("2024-5x".to_string()).year_month(), Err(AnitaError::InvalidMonthNotation));
    assert_eq!(Month("-05".to_string()).year_month(), Err(AnitaError::InvalidMonthNotation));
    assert_eq!(Month("2024-05-01".to_string()).year_month(), Err(AnitaError::InvalidMonthNotation));
    assert_eq!(Month("99999999999-01".to_string()).year_month(), Err(AnitaError::InvalidMonthNotation));
}

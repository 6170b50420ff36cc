use creatief_vakvrouw::factuur::{Client, Factuur, FactuurActionParams, FactuurParams, WorkItem};
use creatief_vakvrouw::report::{
    group_by_period, group_newest_first, key_by_period, latest_invoice, sum_invoices, turnover_in_year, Btw,
    Quarter, YearMonth,
};

fn invoice(nummer: usize, cents: u64, date: i64) -> Factuur {
    let client = Client { name: "Klant".to_string(), address: "Weg 1".to_string(), zip: "1000 AA".to_string() };
    Factuur::new(nummer, client, vec![WorkItem { desc: "werk".to_string(), cents }], date).unwrap()
}

#[test]
fn month_labels() {
    assert_eq!(YearMonth { year: 2024, month: 5 }.label(), "mei 2024");
    assert_eq!(YearMonth { year: 2023, month: 12 }.label(), "december 2023");
    assert_eq!(YearMonth { year: 2023, month: 13 }.label(), "ooit 2023");
}

#[test]
fn quarter_labels() {
    assert_eq!(Quarter { year: 2024, quarter: 2 }.label(), "2024Q2 (apr–jun)");
    assert_eq!(Quarter { year: 2024, quarter: 4 }.label(), "2024Q4 (okt–dec)");
    assert_eq!(Quarter { year: 2024, quarter: 0 }.label(), "2024Q0 (ooit)");
}

#[test]
fn quarters_of_months() {
    let quarters: Vec<u32> = (1..=12).map(|m| Quarter::of_month(2024, m).quarter).collect();
    assert_eq!(quarters, vec![1, 1, 1, 2, 2, 2, 3, 3, 3, 4, 4, 4]);
    assert_eq!(Quarter::of_month(2024, 0).quarter, 0);
}

#[test]
fn invoice_months_are_utc() {
    // 2024-05-31T23:30:00Z and 2024-06-01T00:00:00Z.
    let may = invoice(1, 100, 1717198200);
    let june = invoice(2, 100, 1717200000);
    assert_eq!(YearMonth::of_invoice(&may), Some(YearMonth { year: 2024, month: 5 }));
    assert_eq!(YearMonth::of_invoice(&june), Some(YearMonth { year: 2024, month: 6 }));
    assert_eq!(Quarter::of_invoice(&june), Some(Quarter { year: 2024, quarter: 2 }));
    assert_eq!(YearMonth::of_invoice(&invoice(3, 100, i64::MAX)), None);
}

#[test]
fn turnover_and_tax_of_invoices() {
    let fs = vec![invoice(1, 10000, 0), invoice(2, 2550, 0)];
    assert_eq!(sum_invoices(&fs), Some(12550));
    let b = Btw::of(fs).unwrap();
    assert_eq!((b.omzet, b.btw), (12550, 2100 + 536));
    assert_eq!(b.invoices.len(), 2);
    assert_eq!(sum_invoices(&vec![]), Some(0));
    let fits = vec![invoice(1, u64::MAX / 2, 0), invoice(2, u64::MAX / 2, 0)];
    assert_eq!(sum_invoices(&fits), Some(u64::MAX - 1));
    let big = vec![invoice(1, u64::MAX / 2, 0), invoice(2, u64::MAX / 2, 0), invoice(3, 2, 0)];
    assert_eq!(sum_invoices(&big), None);
}

#[test]
fn empty_client_is_no_client() {
    assert_eq!(FactuurParams::new(Some("".to_string())).client, None);
    assert_eq!(FactuurParams::new(None).client, None);
    assert_eq!(FactuurParams::new(Some("Klant".to_string())).client, Some("Klant".to_string()));
    assert_eq!(FactuurActionParams { factuur: 3 }.factuur, 3);
}

// 2024-01-15, 2024-03-10, 2024-05-01 and 2024-05-20, at noon UTC.
const JAN: i64 = 1705320000;
const MAR: i64 = 1710072000;
const MAY_1: i64 = 1714564800;
const MAY_20: i64 = 1716206400;

#[test]
fn invoices_by_month_newest_first() {
    let fs = vec![invoice(1, 100, JAN), invoice(4, 100, MAY_1), invoice(2, 100, MAR), invoice(5, 100, MAY_20)];
    let groups = group_by_period(fs, false);
    let summary: Vec<((i32, u32), Vec<usize>)> = groups
        .iter()
        .map(|(k, g)| (*k, g.iter().map(|f| f.nummer).collect()))
        .collect();
    assert_eq!(
        summary,
        vec![((2024, 5), vec![5, 4]), ((2024, 3), vec![2]), ((2024, 1), vec![1])]
    );
}

#[test]
fn invoices_by_quarter_newest_first() {
    let fs = vec![invoice(1, 100, JAN), invoice(4, 100, MAY_1), invoice(2, 100, MAR), invoice(3, 100, MAY_20)];
    let groups = group_by_period(fs, true);
    let summary: Vec<((i32, u32), Vec<usize>)> = groups
        .iter()
        .map(|(k, g)| (*k, g.iter().map(|f| f.nummer).collect()))
        .collect();
    assert_eq!(summary, vec![((2024, 2), vec![4, 3]), ((2024, 1), vec![2, 1])]);
    let (_, q1) = groups.into_iter().nth(1).unwrap();
    let b = Btw::of(q1).unwrap();
    assert_eq!((b.omzet, b.btw), (200, 42));
}

#[test]
fn keys_follow_the_invoice_dates() {
    let fs = vec![invoice(1, 100, JAN), invoice(2, 100, i64::MAX), invoice(3, 100, MAY_1)];
    let keyed = key_by_period(fs, false);
    let keys: Vec<((i32, u32), usize)> = keyed.iter().map(|(k, f)| (*k, f.nummer)).collect();
    assert_eq!(keys, vec![((2024, 1), 1), ((2024, 5), 3)]);
}

#[test]
fn grouping_nothing_gives_nothing() {
    assert!(group_newest_first(vec![]).is_empty());
    let groups = group_newest_first(vec![((2023, 12), invoice(7, 1, 0)), ((2024, 1), invoice(8, 1, 0)), ((2023, 12), invoice(9, 1, 0))]);
    let keys: Vec<(i32, u32)> = groups.iter().map(|(k, _)| *k).collect();
    assert_eq!(keys, vec![(2024, 1), (2023, 12)]);
    assert_eq!(groups[1].1.iter().map(|f| f.nummer).collect::<Vec<_>>(), vec![9, 7]);
}

#[test]
fn turnover_of_one_year() {
    // 2023-12-31T23:30:00Z, then two invoices in 2024.
    let fs = vec![invoice(1, 5000, 1704065400), invoice(2, 100, JAN), invoice(3, 250, MAY_1)];
    assert_eq!(turnover_in_year(&fs, 2024), Some(350));
    assert_eq!(turnover_in_year(&fs, 2023), Some(5000));
    assert_eq!(turnover_in_year(&fs, 2022), Some(0));
    let big = vec![invoice(1, u64::MAX / 2, JAN), invoice(2, u64::MAX / 2, MAR), invoice(3, 2, MAY_1)];
    assert_eq!(turnover_in_year(&big, 2024), None);
    assert_eq!(turnover_in_year(&big, 2023), Some(0));
}

#[test]
fn latest_invoice_has_the_highest_number() {
    assert_eq!(latest_invoice(&vec![]), None);
    let fs = vec![invoice(3, 1, 0), invoice(9, 1, 0), invoice(4, 1, 0)];
    assert_eq!(latest_invoice(&fs), Some(1));
}

#[test]
fn quarter_keys_stay_in_range() {
    let fs = vec![invoice(1, 100, JAN), invoice(2, 100, MAY_20), invoice(3, 100, 1735646400)];
    let keyed = key_by_period(fs, true);
    let keys: Vec<(i32, u32)> = keyed.iter().map(|(k, _)| *k).collect();
    assert_eq!(keys, vec![(2024, 1), (2024, 2), (2024, 4)]);
}
